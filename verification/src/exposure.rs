//! The stake behind an elected validator, as recorded for an era.

use vstd::prelude::*;
use crate::perbill::{lemma_share_bound, share};
use crate::primitives::{AccountId, Balance};

verus! {

/// The amount of exposure (to slashing) than an individual nominator has.
#[derive(Clone, Copy, PartialEq, Eq, Debug)]
pub struct IndividualExposure {
    /// The stash account of the nominator in question.
    pub who: AccountId,
    /// Amount of funds exposed.
    pub value: Balance,
}

/// A snapshot of the stake backing a single validator in the system.
#[derive(Clone, PartialEq, Eq, Debug)]
pub struct Exposure {
    /// The total balance backing this validator.
    pub total: Balance,
    /// The validator's own stash that is exposed.
    pub own: Balance,
    /// The portions of nominators stashes that are exposed.
    pub others: Vec<IndividualExposure>,
}

/// What the backers in `others` have exposed, all together.
pub open spec fn others_value(others: Seq<IndividualExposure>) -> int
    decreases others.len(),
{
    if others.len() == 0 {
        0
    } else {
        others_value(others.drop_last()) + others.last().value
    }
}

/// What falls to the first `n` of `others` when `amount` is shared out in
/// proportion to what each has exposed out of `total`.
pub open spec fn shares_upto(others: Seq<IndividualExposure>, total: int, amount: int, n: int) -> int
    decreases n,
{
    if n <= 0 {
        0
    } else {
        shares_upto(others, total, amount, n - 1) + share(others[n - 1].value as int, total, amount)
    }
}

/// What falls to the first backers is no more than their exact proportion.
pub proof fn lemma_shares_upto_bound(others: Seq<IndividualExposure>, total: int, amount: int, n: int)
    requires
        0 <= n <= others.len(),
        0 < total,
        0 <= amount,
    ensures
        0 <= shares_upto(others, total, amount, n),
        shares_upto(others, total, amount, n) * total <= others_value(others.take(n)) * amount,
    decreases n,
{
    if n > 0 {
        lemma_shares_upto_bound(others, total, amount, n - 1);
        lemma_share_bound(others[n - 1].value as int, total, amount);
        assert(others.take(n).drop_last() =~= others.take(n - 1));
        let a = shares_upto(others, total, amount, n - 1);
        let b = share(others[n - 1].value as int, total, amount);
        let va = others_value(others.take(n - 1));
        let vb = others[n - 1].value as int;
        assert((a + b) * total <= (va + vb) * amount) by (nonlinear_arith)
            requires
                a * total <= va * amount,
                b * total <= vb * amount,
        ;
    } else {
        assert(others.take(0) =~= Seq::<IndividualExposure>::empty());
        assert(0 * total == 0 && 0 * amount == 0) by (nonlinear_arith);
    }
}

/// What falls to the first backers of a well-formed exposure, and to the
/// validator itself, is together no more than the amount that is shared out.
pub proof fn lemma_shares_within(exposure: ExposureView, total: int, amount: int, n: int)
    requires
        0 <= n <= exposure.others.len(),
        exposure.own + others_value(exposure.others) <= total,
        0 < total,
        0 <= amount,
    ensures
        0 <= shares_upto(exposure.others, total, amount, n),
        shares_upto(exposure.others, total, amount, n) + share(exposure.own as int, total, amount)
            <= amount,
        0 <= share(exposure.own as int, total, amount),
{
    lemma_shares_upto_bound(exposure.others, total, amount, n);
    lemma_share_bound(exposure.own as int, total, amount);
    lemma_others_value_take(exposure.others, n);
    let a = shares_upto(exposure.others, total, amount, n);
    let b = share(exposure.own as int, total, amount);
    let va = others_value(exposure.others.take(n));
    let vb = exposure.own as int;
    assert(a + b <= amount) by (nonlinear_arith)
        requires
            a * total <= va * amount,
            b * total <= vb * amount,
            va + vb <= total,
            0 < total,
            0 <= amount,
    ;
}

/// An exposure as a plain value.
pub ghost struct ExposureView {
    pub total: Balance,
    pub own: Balance,
    pub others: Seq<IndividualExposure>,
}

impl ExposureView {
    /// The total is the validator's own stake and that of its backers.
    pub open spec fn wf(self) -> bool {
        self.total == self.own + others_value(self.others)
    }

    /// The exposure of an account that nothing backs.
    pub open spec fn empty() -> ExposureView {
        ExposureView { total: 0, own: 0, others: Seq::empty() }
    }
}

impl View for Exposure {
    type V = ExposureView;

    open spec fn view(&self) -> ExposureView {
        ExposureView { total: self.total, own: self.own, others: self.others@ }
    }
}

/// What the first backers have exposed is no more than what all have.
pub proof fn lemma_others_value_take(others: Seq<IndividualExposure>, n: int)
    requires
        0 <= n <= others.len(),
    ensures
        0 <= others_value(others.take(n)) <= others_value(others),
    decreases others.len() - n,
{
    if n == others.len() {
        assert(others.take(n) =~= others);
        lemma_others_value_nonnegative(others);
    } else {
        lemma_others_value_take(others, n + 1);
        assert(others.take(n + 1).drop_last() =~= others.take(n));
        lemma_others_value_nonnegative(others.take(n));
    }
}

/// Where the backer at place `i` is the first to be `who`, it is the place
/// of `who` among any number of backers beyond it.
pub proof fn lemma_backer_found(others: Seq<IndividualExposure>, who: AccountId, i: int, n: int)
    requires
        0 <= i < n <= others.len(),
        backer_place(others, who, i) == i,
        others[i].who == who,
    ensures
        backer_place(others, who, n) == i,
    decreases n - i,
{
    if n > i + 1 {
        lemma_backer_found(others, who, i, n - 1);
    }
}

/// No backer has exposed more than all of them together.
pub proof fn lemma_value_bounded(others: Seq<IndividualExposure>, i: int)
    requires
        0 <= i < others.len(),
    ensures
        others[i].value <= others_value(others),
    decreases others.len(),
{
    lemma_others_value_nonnegative(others.drop_last());
    if i < others.len() - 1 {
        lemma_value_bounded(others.drop_last(), i);
    }
}

/// Backers expose nothing negative.
pub proof fn lemma_others_value_nonnegative(others: Seq<IndividualExposure>)
    ensures
        0 <= others_value(others),
    decreases others.len(),
{
    if others.len() > 0 {
        lemma_others_value_nonnegative(others.drop_last());
    }
}

/// The first place among the first `n` of `others` that holds `who`, or `n`
/// where none does.
pub open spec fn backer_place(others: Seq<IndividualExposure>, who: AccountId, n: int) -> int
    decreases n,
{
    if n <= 0 {
        0
    } else if backer_place(others, who, n - 1) < n - 1 {
        backer_place(others, who, n - 1)
    } else if others[n - 1].who == who {
        n - 1
    } else {
        n
    }
}

/// The place that `backer_place` gives lies among the first `n`, or is `n`;
/// what it gives below `n` holds `who`.
pub proof fn lemma_backer_place(others: Seq<IndividualExposure>, who: AccountId, n: int)
    requires
        0 <= n <= others.len(),
    ensures
        0 <= backer_place(others, who, n) <= n,
        backer_place(others, who, n) < n ==> others[backer_place(others, who, n)].who == who,
    decreases n,
{
    if n > 0 {
        lemma_backer_place(others, who, n - 1);
    }
}

/// What the backers expose when the one at place `i` exposes `value`
/// instead.
pub proof fn lemma_others_value_update(others: Seq<IndividualExposure>, i: int, entry: IndividualExposure)
    requires
        0 <= i < others.len(),
    ensures
        others_value(others.update(i, entry)) == others_value(others) - others[i].value + entry.value,
    decreases others.len(),
{
    if i == others.len() - 1 {
        assert(others.update(i, entry).drop_last() =~= others.drop_last());
    } else {
        lemma_others_value_update(others.drop_last(), i, entry);
        assert(others.update(i, entry).drop_last() =~= others.drop_last().update(i, entry));
    }
}

impl ExposureView {
    /// What `who` has exposed behind the validator: what its first entry
    /// among the backers says, and nothing where it has none.
    pub open spec fn backing_of(self, who: AccountId) -> Balance {
        let i = backer_place(self.others, who, self.others.len() as int);
        if i < self.others.len() {
            self.others[i].value
        } else {
            0
        }
    }

    /// The exposure with `amount` less from `who`, which has exposed as
    /// much.
    pub open spec fn reduced(self, who: AccountId, amount: Balance) -> ExposureView {
        let i = backer_place(self.others, who, self.others.len() as int);
        ExposureView {
            total: (self.total - amount) as Balance,
            own: self.own,
            others: if i < self.others.len() {
                self.others.update(
                    i,
                    IndividualExposure { who, value: (self.others[i].value - amount) as Balance },
                )
            } else {
                self.others
            },
        }
    }

    /// The exposure with `amount` more from `who`: in its first entry among
    /// the backers, or in a new one, last, where it has none.
    pub open spec fn raised(self, who: AccountId, amount: Balance) -> ExposureView {
        let i = backer_place(self.others, who, self.others.len() as int);
        ExposureView {
            total: (self.total + amount) as Balance,
            own: self.own,
            others: if i < self.others.len() {
                self.others.update(
                    i,
                    IndividualExposure { who, value: (self.others[i].value + amount) as Balance },
                )
            } else {
                self.others.push(IndividualExposure { who, value: amount })
            },
        }
    }
}

impl Default for Exposure {
    fn default() -> (r: Exposure)
        ensures
            r@ == ExposureView::empty(),
    {
        Exposure { total: 0, own: 0, others: Vec::new() }
    }
}

impl Exposure {
    /// The place of the first entry of `who` among the backers, or their
    /// number where it has none.
    fn place(&self, who: AccountId) -> (i: usize)
        ensures
            i as int == backer_place(self@.others, who, self@.others.len() as int),
            i <= self@.others.len(),
            i < self@.others.len() ==> self@.others[i as int].who == who,
    {
        let mut i: usize = 0;
        while i < self.others.len()
            invariant
                i <= self.others.len(),
                backer_place(self@.others, who, i as int) == i,
            decreases self.others.len() - i,
        {
            if self.others[i].who == who {
                proof {
                    lemma_backer_found(self@.others, who, i as int, self@.others.len() as int);
                }
                return i;
            }
            i += 1;
        }
        i
    }

    /// What `who` has exposed behind the validator.
    pub fn backing_of(&self, who: AccountId) -> (r: Balance)
        ensures
            r == self@.backing_of(who),
    {
        let i = self.place(who);
        if i < self.others.len() {
            self.others[i].value
        } else {
            0
        }
    }

    /// Takes `amount` of what `who` has exposed out of the exposure.
    pub fn reduce(&mut self, who: AccountId, amount: Balance)
        requires
            old(self)@.wf(),
            amount <= old(self)@.backing_of(who),
        ensures
            final(self)@ == old(self)@.reduced(who, amount),
            final(self)@.wf(),
    {
        let i = self.place(who);
        if i < self.others.len() {
            proof {
                lemma_others_value_update(
                    self@.others,
                    i as int,
                    IndividualExposure { who, value: (self@.others[i as int].value - amount) as Balance },
                );
                lemma_value_bounded(self@.others, i as int);
            }
            let value = self.others[i].value;
            self.others[i] = IndividualExposure { who, value: value - amount };
            self.total = self.total - amount;
        }
    }

    /// Adds `amount` to what `who` has exposed behind the validator.
    pub fn raise(&mut self, who: AccountId, amount: Balance)
        requires
            old(self)@.wf(),
            old(self)@.total + amount <= u64::MAX,
        ensures
            final(self)@ == old(self)@.raised(who, amount),
            final(self)@.wf(),
    {
        let i = self.place(who);
        if i < self.others.len() {
            proof {
                lemma_others_value_update(
                    self@.others,
                    i as int,
                    IndividualExposure { who, value: (self@.others[i as int].value + amount) as Balance },
                );
                lemma_value_bounded(self@.others, i as int);
            }
            let value = self.others[i].value;
            self.others[i] = IndividualExposure { who, value: value + amount };
        } else {
            let ghost before = self@.others;
            self.others.push(IndividualExposure { who, value: amount });
            assert(self@.others.drop_last() =~= before);
        }
        self.total = self.total + amount;
    }

    /// A copy of the exposure.
    pub fn duplicate(&self) -> (r: Exposure)
        ensures
            r@ == self@,
    {
        let mut others: Vec<IndividualExposure> = Vec::new();
        let mut i: usize = 0;
        while i < self.others.len()
            invariant
                i <= self.others.len(),
                others@ == self.others@.take(i as int),
            decreases self.others.len() - i,
        {
            others.push(self.others[i]);
            assert(others@ =~= self.others@.take(i + 1));
            i += 1;
        }
        assert(self.others@.take(self.others@.len() as int) =~= self.others@);
        Exposure { total: self.total, own: self.own, others }
    }
}

} // verus!
