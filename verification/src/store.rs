//! A keyed store: a map from accounts to values that is walked in the order
//! of the accounts, so that two stores with the same content are walked alike.

use vstd::prelude::*;
use crate::primitives::AccountId;

verus! {

/// Each key is smaller than those behind it.
pub open spec fn increasing(keys: Seq<AccountId>) -> bool {
    forall|i: int, j: int| 0 <= i < j < keys.len() ==> keys[i] < keys[j]
}

/// In an increasing sequence a key is found at one place only.
pub proof fn lemma_index_of(keys: Seq<AccountId>, i: int)
    requires
        increasing(keys),
        0 <= i < keys.len(),
    ensures
        keys.contains(keys[i]),
        keys.index_of(keys[i]) == i,
{
    let j = keys.index_of(keys[i]);
    assert(0 <= j < keys.len() && keys[j] == keys[i]);
    if j < i {
        assert(keys[j] < keys[i]);
    } else if i < j {
        assert(keys[i] < keys[j]);
    }
}

/// Two increasing sequences with the same keys are the same.
pub proof fn lemma_increasing_unique(a: Seq<AccountId>, b: Seq<AccountId>)
    requires
        increasing(a),
        increasing(b),
        a.to_set() == b.to_set(),
    ensures
        a == b,
    decreases a.len(),
{
    lemma_increasing_len(a);
    lemma_increasing_len(b);
    if a.len() > 0 {
        let x = a.last();
        let y = b.last();
        assert(a.to_set().contains(x)) by {
            assert(a[a.len() - 1] == x);
        }
        assert(b.to_set().contains(y)) by {
            assert(b[b.len() - 1] == y);
        }
        assert(b.contains(x));
        assert(a.contains(y));
        let j = b.index_of(x);
        let i = a.index_of(y);
        assert(x <= y) by {
            if j < b.len() - 1 {
                assert(b[j] < b[b.len() - 1]);
            }
        }
        assert(y <= x) by {
            if i < a.len() - 1 {
                assert(a[i] < a[a.len() - 1]);
            }
        }
        let a0 = a.drop_last();
        let b0 = b.drop_last();
        assert forall|k: AccountId| a0.to_set().contains(k) == b0.to_set().contains(k) by {
            if a0.contains(k) {
                let p = a0.index_of(k);
                assert(a[p] == k);
                assert(a[p] < a[a.len() - 1]);
                assert(a.to_set().contains(k));
                assert(b.contains(k));
                let q = b.index_of(k);
                assert(q < b.len() - 1);
                assert(b0[q] == k);
            }
            if b0.contains(k) {
                let p = b0.index_of(k);
                assert(b[p] == k);
                assert(b[p] < b[b.len() - 1]);
                assert(b.to_set().contains(k));
                assert(a.contains(k));
                let q = a.index_of(k);
                assert(q < a.len() - 1);
                assert(a0[q] == k);
            }
        }
        assert(a0.to_set() =~= b0.to_set());
        lemma_increasing_unique(a0, b0);
        assert(a =~= a0.push(x));
        assert(b =~= b0.push(y));
    } else {
        assert(a =~= b);
    }
}

/// An increasing sequence is as long as the set of its keys is large.
pub proof fn lemma_increasing_len(keys: Seq<AccountId>)
    requires
        increasing(keys),
    ensures
        keys.no_duplicates(),
        keys.to_set().finite(),
        keys.to_set().len() == keys.len(),
{
    assert forall|i: int, j: int| 0 <= i < keys.len() && 0 <= j < keys.len() && i != j implies keys[i]
        != keys[j] by {
        if i < j {
            assert(keys[i] < keys[j]);
        } else {
            assert(keys[j] < keys[i]);
        }
    }
    keys.unique_seq_to_set();
}

/// The accounts in `dom`, each once, in increasing order.
pub open spec fn ordered(dom: Set<AccountId>) -> Seq<AccountId> {
    choose|keys: Seq<AccountId>| increasing(keys) && keys.to_set() == dom
}

/// Of every finite set of accounts there is an increasing sequence.
pub proof fn lemma_ordered_exists(dom: Set<AccountId>)
    requires
        dom.finite(),
    ensures
        increasing(ordered(dom)),
        ordered(dom).to_set() == dom,
    decreases dom.len(),
{
    if dom.len() == 0 {
        let keys = Seq::<AccountId>::empty();
        assert(keys.to_set() =~= dom);
        assert(increasing(keys) && keys.to_set() == dom);
    } else {
        let top = greatest(dom);
        lemma_greatest(dom);
        let rest = dom.remove(top);
        lemma_ordered_exists(rest);
        let below = ordered(rest);
        let keys = below.push(top);
        assert forall|i: int, j: int| 0 <= i < j < keys.len() implies keys[i] < keys[j] by {
            if j < below.len() {
                assert(below[i] < below[j]);
            } else {
                assert(below.to_set().contains(below[i]));
                assert(rest.contains(keys[i]));
            }
        }
        assert forall|k: AccountId| keys.to_set().contains(k) == dom.contains(k) by {
            if keys.contains(k) {
                let i = keys.index_of(k);
                if i < below.len() {
                    assert(below.to_set().contains(below[i]));
                }
            }
            if dom.contains(k) {
                if k == top {
                    assert(keys[keys.len() - 1] == k);
                } else {
                    assert(rest.contains(k));
                    assert(below.to_set().contains(k));
                    let i = below.index_of(k);
                    assert(keys[i] == k);
                }
            }
        }
        assert(keys.to_set() =~= dom);
        assert(increasing(keys) && keys.to_set() == dom);
    }
}

/// An account of `dom` that none of `dom` lies above.
pub open spec fn greatest(dom: Set<AccountId>) -> AccountId {
    choose|top: AccountId| dom.contains(top) && forall|k: AccountId| dom.contains(k) ==> k <= top
}

/// A finite set of accounts that is not empty has a greatest account.
pub proof fn lemma_greatest(dom: Set<AccountId>)
    requires
        dom.finite(),
        dom.len() > 0,
    ensures
        dom.contains(greatest(dom)),
        forall|k: AccountId| dom.contains(k) ==> k <= greatest(dom),
    decreases dom.len(),
{
    let x = dom.choose();
    let rest = dom.remove(x);
    if rest.len() == 0 {
        assert forall|k: AccountId| dom.contains(k) implies k <= x by {
            if k != x {
                assert(rest.contains(k));
            }
        }
        assert(dom.contains(x) && forall|k: AccountId| dom.contains(k) ==> k <= x);
    } else {
        lemma_greatest(rest);
        let y = greatest(rest);
        let top = if x >= y { x } else { y };
        assert forall|k: AccountId| dom.contains(k) implies k <= top by {
            if k != x {
                assert(rest.contains(k));
            }
        }
        assert(dom.contains(top) && forall|k: AccountId| dom.contains(k) ==> k <= top);
    }
}

/// A map from accounts to values, kept in the order of the accounts.
pub struct StorageMap<V> {
    keys: Vec<AccountId>,
    values: Vec<V>,
}

impl<V: View> View for StorageMap<V> {
    type V = Map<AccountId, V::V>;

    closed spec fn view(&self) -> Map<AccountId, V::V> {
        Map::new(
            |k: AccountId| self.keys@.contains(k),
            |k: AccountId| self.values@[self.keys@.index_of(k)]@,
        )
    }
}

impl<V: View> StorageMap<V> {
    /// The keys of the store, in the order in which it is walked.
    pub closed spec fn keys(&self) -> Seq<AccountId> {
        self.keys@
    }

    /// Each key has one value, and the keys increase.
    pub closed spec fn wf(&self) -> bool {
        &&& self.keys@.len() == self.values@.len()
        &&& increasing(self.keys@)
    }

    /// The keys of a well-formed store increase and are those of its view;
    /// the view pairs each with its value.
    pub proof fn lemma_keys(&self)
        requires
            self.wf(),
        ensures
            increasing(self.keys()),
            self@.dom().finite(),
            self@.dom() == self.keys().to_set(),
            self@.dom().len() == self.keys().len(),
            forall|k: AccountId| self@.contains_key(k) <==> self.keys().contains(k),
            forall|i: int| 0 <= i < self.keys().len() ==> self@.contains_key(#[trigger] self.keys()[i]),
            self.keys() == ordered(self@.dom()),
    {
        assert(self@.dom() =~= self.keys@.to_set());
        assert(self.keys@.no_duplicates()) by {
            assert forall|i: int, j: int|
                0 <= i < self.keys@.len() && 0 <= j < self.keys@.len() && i != j implies self.keys@[i]
                != self.keys@[j] by {
                if i < j {
                    assert(self.keys@[i] < self.keys@[j]);
                } else {
                    assert(self.keys@[j] < self.keys@[i]);
                }
            }
        }
        self.keys@.unique_seq_to_set();
        assert forall|i: int| 0 <= i < self.keys@.len() implies self@.contains_key(
            #[trigger] self.keys@[i],
        ) by {
            lemma_index_of(self.keys@, i);
        }
        let picked = ordered(self@.dom());
        assert(increasing(self.keys@) && self.keys@.to_set() == self@.dom());
        lemma_increasing_unique(picked, self.keys@);
    }

    /// Two stores that hold the same are walked in the same order, however
    /// they came to hold it.
    pub proof fn lemma_same_walk(&self, other: &StorageMap<V>)
        requires
            self.wf(),
            other.wf(),
            self@.dom() == other@.dom(),
        ensures
            self.keys() == other.keys(),
    {
        self.lemma_keys();
        other.lemma_keys();
    }

    /// A store without entries.
    pub fn new() -> (r: Self)
        ensures
            r.wf(),
            r@ == Map::<AccountId, V::V>::empty(),
            r.keys() == Seq::<AccountId>::empty(),
    {
        let r = StorageMap { keys: Vec::new(), values: Vec::new() };
        assert(r@ =~= Map::<AccountId, V::V>::empty());
        r
    }

    /// The number of entries.
    pub fn len(&self) -> (n: usize)
        requires
            self.wf(),
        ensures
            n == self.keys().len(),
            n == self@.dom().len(),
    {
        proof {
            self.lemma_keys();
        }
        self.keys.len()
    }

    /// The key at place `i` of the walk.
    pub fn key_at(&self, i: usize) -> (k: AccountId)
        requires
            self.wf(),
            i < self.keys().len(),
        ensures
            k == self.keys()[i as int],
            self@.contains_key(k),
    {
        proof {
            self.lemma_keys();
        }
        self.keys[i]
    }

    /// The value at place `i` of the walk.
    pub fn value_at(&self, i: usize) -> (v: &V)
        requires
            self.wf(),
            i < self.keys().len(),
        ensures
            self@.contains_key(self.keys()[i as int]),
            v@ == self@[self.keys()[i as int]],
    {
        proof {
            lemma_index_of(self.keys@, i as int);
        }
        &self.values[i]
    }

    /// The first place whose key is not below `k`, and whether `k` is there.
    fn position(&self, k: AccountId) -> (r: (usize, bool))
        requires
            self.wf(),
        ensures
            r.0 <= self.keys@.len(),
            forall|i: int| 0 <= i < r.0 ==> self.keys@[i] < k,
            forall|i: int| r.0 <= i < self.keys@.len() ==> self.keys@[i] >= k,
            r.1 <==> (r.0 < self.keys@.len() && self.keys@[r.0 as int] == k),
            r.1 <==> self.keys@.contains(k),
    {
        let mut lo: usize = 0;
        let mut hi: usize = self.keys.len();
        while lo < hi
            invariant
                self.wf(),
                lo <= hi <= self.keys@.len(),
                forall|i: int| 0 <= i < lo ==> self.keys@[i] < k,
                forall|i: int| hi <= i < self.keys@.len() ==> self.keys@[i] >= k,
            decreases hi - lo,
        {
            let mid: usize = lo + (hi - lo) / 2;
            if self.keys[mid] < k {
                assert forall|i: int| 0 <= i < mid + 1 implies self.keys@[i] < k by {
                    if i < mid {
                        assert(self.keys@[i] < self.keys@[mid as int]);
                    }
                }
                lo = mid + 1;
            } else {
                assert forall|i: int| mid <= i < self.keys@.len() implies self.keys@[i] >= k by {
                    if mid < i {
                        assert(self.keys@[mid as int] < self.keys@[i]);
                    }
                }
                hi = mid;
            }
        }
        let found = lo < self.keys.len() && self.keys[lo] == k;
        proof {
            if self.keys@.contains(k) {
                let j = self.keys@.index_of(k);
                assert(0 <= j < self.keys@.len() && self.keys@[j] == k);
                if j > lo {
                    assert(self.keys@[lo as int] < self.keys@[j]);
                }
            }
        }
        (lo, found)
    }

    /// Whether `k` has a value.
    pub fn contains_key(&self, k: AccountId) -> (r: bool)
        requires
            self.wf(),
        ensures
            r == self@.contains_key(k),
    {
        self.position(k).1
    }

    /// The value of `k`, if it has one.
    pub fn get(&self, k: AccountId) -> (r: Option<&V>)
        requires
            self.wf(),
        ensures
            r.is_some() == self@.contains_key(k),
            r.is_some() ==> r.unwrap()@ == self@[k],
    {
        let (pos, found) = self.position(k);
        if found {
            proof {
                lemma_index_of(self.keys@, pos as int);
            }
            Some(&self.values[pos])
        } else {
            None
        }
    }

    /// Gives `k` the value `v`, in place of the one it had.
    pub fn insert(&mut self, k: AccountId, v: V)
        requires
            old(self).wf(),
        ensures
            final(self).wf(),
            final(self)@ == old(self)@.insert(k, v@),
    {
        let (pos, found) = self.position(k);
        let ghost old_keys = self.keys@;
        let ghost old_values = self.values@;
        if found {
            self.values[pos] = v;
            proof {
                assert forall|q: AccountId| self.keys@.contains(q) implies #[trigger] self@[q]
                    == old(self)@.insert(k, v@)[q] by {
                    let j = self.keys@.index_of(q);
                    assert(0 <= j < self.keys@.len() && self.keys@[j] == q);
                    lemma_index_of(self.keys@, pos as int);
                }
                assert(self@ =~= old(self)@.insert(k, v@));
            }
        } else {
            self.keys.insert(pos, k);
            self.values.insert(pos, v);
            proof {
                let keys = self.keys@;
                assert(increasing(keys)) by {
                    assert forall|i: int, j: int| 0 <= i < j < keys.len() implies keys[i]
                        < keys[j] by {
                        let oi = if i < pos { i } else { i - 1 };
                        let oj = if j < pos { j } else { j - 1 };
                        if i != pos && j != pos {
                            assert(old_keys[oi] < old_keys[oj]);
                        }
                    }
                }
                assert forall|q: AccountId| keys.contains(q) <==> (q == k || old_keys.contains(
                    q,
                )) by {
                    if keys.contains(q) {
                        let j = keys.index_of(q);
                        assert(0 <= j < keys.len() && keys[j] == q);
                        if j < pos {
                            assert(old_keys[j] == q);
                        } else if j > pos {
                            assert(old_keys[j - 1] == q);
                        }
                    }
                    if q == k {
                        assert(keys[pos as int] == k);
                    }
                    if old_keys.contains(q) {
                        let j = old_keys.index_of(q);
                        assert(0 <= j < old_keys.len() && old_keys[j] == q);
                        if j < pos {
                            assert(keys[j] == q);
                        } else {
                            assert(keys[j + 1] == q);
                        }
                    }
                }
                assert forall|q: AccountId| keys.contains(q) implies #[trigger] self@[q] == old(
                    self,
                )@.insert(k, v@)[q] by {
                    let j = keys.index_of(q);
                    assert(0 <= j < keys.len() && keys[j] == q);
                    if j == pos {
                    } else {
                        let oj = if j < pos { j } else { j - 1 };
                        assert(old_keys[oj] == q);
                        lemma_index_of(old_keys, oj);
                    }
                }
                assert(self@ =~= old(self)@.insert(k, v@));
            }
        }
    }

    /// Takes the value of `k` out of the store, if it has one.
    pub fn remove(&mut self, k: AccountId) -> (r: Option<V>)
        requires
            old(self).wf(),
        ensures
            final(self).wf(),
            final(self)@ == old(self)@.remove(k),
            r.is_some() == old(self)@.contains_key(k),
            r.is_some() ==> r.unwrap()@ == old(self)@[k],
    {
        let (pos, found) = self.position(k);
        let ghost old_keys = self.keys@;
        if found {
            proof {
                lemma_index_of(old_keys, pos as int);
            }
            self.keys.remove(pos);
            let v = self.values.remove(pos);
            proof {
                let keys = self.keys@;
                assert(increasing(keys)) by {
                    assert forall|i: int, j: int| 0 <= i < j < keys.len() implies keys[i]
                        < keys[j] by {
                        let oi = if i < pos { i } else { i + 1 };
                        let oj = if j < pos { j } else { j + 1 };
                        assert(old_keys[oi] < old_keys[oj]);
                    }
                }
                assert forall|q: AccountId| keys.contains(q) <==> (q != k && old_keys.contains(
                    q,
                )) by {
                    if keys.contains(q) {
                        let j = keys.index_of(q);
                        assert(0 <= j < keys.len() && keys[j] == q);
                        let oj = if j < pos { j } else { j + 1 };
                        assert(old_keys[oj] == q);
                        if oj < pos {
                            assert(old_keys[oj] < old_keys[pos as int]);
                        } else {
                            assert(old_keys[pos as int] < old_keys[oj]);
                        }
                    }
                    if q != k && old_keys.contains(q) {
                        let j = old_keys.index_of(q);
                        assert(0 <= j < old_keys.len() && old_keys[j] == q);
                        if j < pos {
                            assert(keys[j] == q);
                        } else {
                            assert(keys[j - 1] == q);
                        }
                    }
                }
                assert forall|q: AccountId| keys.contains(q) implies #[trigger] self@[q] == old(
                    self,
                )@.remove(k)[q] by {
                    let j = keys.index_of(q);
                    assert(0 <= j < keys.len() && keys[j] == q);
                    let oj = if j < pos { j } else { j + 1 };
                    assert(old_keys[oj] == q);
                    lemma_index_of(old_keys, oj);
                }
                assert(self@ =~= old(self)@.remove(k));
            }
            Some(v)
        } else {
            assert(self@ =~= old(self)@.remove(k));
            None
        }
    }
}

} // verus!
