//! What holds of a tally from its first round to its last: whom the
//! candidates and voters stand for, that every winner won once, and how many
//! candidates can still win.

use vstd::prelude::*;
use crate::phragmen::{Candidate, NominationView, Stake, TallyView, best};
use crate::primitives::AccountId;

verus! {

/// Whether `who` is one of `validators` and has stake.
pub open spec fn stands(validators: Seq<Stake>, who: AccountId) -> bool {
    exists|j: int| 0 <= j < validators.len() && (#[trigger] validators[j]).who == who && validators[j].stake > 0
}

/// Whether `nomination` has stake and names `who`.
pub open spec fn votes_for(nomination: NominationView, who: AccountId) -> bool {
    nomination.stake > 0 && nomination.targets.contains(who)
}

/// Whether one of `nominations` has stake and names `who`.
pub open spec fn is_backed(nominations: Seq<NominationView>, who: AccountId) -> bool {
    exists|k: int| 0 <= k < nominations.len() && votes_for(#[trigger] nominations[k], who)
}

/// Whether `who` is the nominator of one of `nominations` that has stake.
pub open spec fn nominates(nominations: Seq<NominationView>, who: AccountId) -> bool {
    exists|k: int| 0 <= k < nominations.len() && (#[trigger] nominations[k]).who == who && nominations[k].stake > 0
}

/// Whether no two of `validators` are the same stash.
pub open spec fn distinct(validators: Seq<Stake>) -> bool {
    forall|i: int, j: int|
        0 <= i < j < validators.len() ==> (#[trigger] validators[i]).who != (#[trigger] validators[j]).who
}

/// Whether no two of `candidates` are the same stash.
pub open spec fn distinct_candidates(candidates: Seq<Candidate>) -> bool {
    forall|i: int, j: int|
        0 <= i < j < candidates.len() ==> (#[trigger] candidates[i]).who != (#[trigger] candidates[j]).who
}

/// How many of the first `n` of `validators` have stake.
pub open spec fn stake_count(validators: Seq<Stake>, n: int) -> int
    decreases n,
{
    if n <= 0 {
        0
    } else {
        stake_count(validators, n - 1) + if validators[n - 1].stake > 0 { 1int } else { 0int }
    }
}

/// Whether one of the first `k` of `targets` is `who`.
pub open spec fn names(targets: Seq<AccountId>, who: AccountId, k: int) -> bool
    decreases k,
{
    if k <= 0 {
        false
    } else {
        names(targets, who, k - 1) || targets[k - 1] == who
    }
}

/// Whether one of the first `j` of `nominations` has stake and names `who`.
pub open spec fn backs(nominations: Seq<NominationView>, who: AccountId, j: int) -> bool
    decreases j,
{
    if j <= 0 {
        false
    } else {
        backs(nominations, who, j - 1) || (nominations[j - 1].stake > 0 && names(
            nominations[j - 1].targets,
            who,
            nominations[j - 1].targets.len() as int,
        ))
    }
}

/// How many of the first `n` of `validators` can be elected: those with
/// stake that a nomination with stake names.
pub open spec fn eligible_upto(validators: Seq<Stake>, nominations: Seq<NominationView>, n: int) -> int
    decreases n,
{
    if n <= 0 {
        0
    } else {
        eligible_upto(validators, nominations, n - 1) + if validators[n - 1].stake > 0 && is_backed(
            nominations,
            validators[n - 1].who,
        ) {
            1int
        } else {
            0int
        }
    }
}

/// Whether `candidates` are those of the first `n` of `validators` that
/// have stake, in their order.
pub open spec fn lined_up(candidates: Seq<Candidate>, validators: Seq<Stake>, n: int) -> bool {
    &&& candidates.len() == stake_count(validators, n)
    &&& forall|j: int|
        0 <= j < n && (#[trigger] validators[j]).stake > 0 ==> 0 <= stake_count(validators, j)
            < candidates.len() && candidates[stake_count(validators, j)].who == validators[j].who
}

/// Whether `who` is one of the first `n` of `validators`.
pub open spec fn stands_before(validators: Seq<Stake>, who: AccountId, n: int) -> bool {
    exists|j: int| 0 <= j < n && (#[trigger] validators[j]).who == who
}

/// The stashes of `candidates`, in their order.
pub open spec fn stashes_of(candidates: Seq<Candidate>) -> Seq<AccountId> {
    Seq::new(candidates.len(), |c: int| candidates[c].who)
}

/// The more validators are counted, the more of them have stake.
pub proof fn lemma_stake_count_grows(validators: Seq<Stake>, m: int, n: int)
    requires
        0 <= m <= n,
    ensures
        0 <= stake_count(validators, m) <= stake_count(validators, n),
    decreases n - m,
{
    lemma_stake_count_nonnegative(validators, m);
    if m < n {
        lemma_stake_count_grows(validators, m + 1, n);
        assert(stake_count(validators, m + 1) >= stake_count(validators, m));
    }
}

/// No fewer than none have stake.
pub proof fn lemma_stake_count_nonnegative(validators: Seq<Stake>, n: int)
    ensures
        0 <= stake_count(validators, n),
    decreases n,
{
    if n > 0 {
        lemma_stake_count_nonnegative(validators, n - 1);
    }
}

/// One of the first `k` targets is `who` where `who` is among them.
pub proof fn lemma_names(targets: Seq<AccountId>, who: AccountId, k: int)
    requires
        0 <= k <= targets.len(),
    ensures
        names(targets, who, k) <==> exists|m: int| 0 <= m < k && targets[m] == who,
    decreases k,
{
    if k > 0 {
        lemma_names(targets, who, k - 1);
        if names(targets, who, k - 1) {
            let m = choose|m: int| 0 <= m < k - 1 && targets[m] == who;
            assert(0 <= m < k && targets[m] == who);
        }
        if targets[k - 1] == who {
            assert(0 <= k - 1 < k && targets[k - 1] == who);
        }
    }
}

/// One of the first `j` nominations backs `who` where it has stake and
/// names `who`.
pub proof fn lemma_backs(nominations: Seq<NominationView>, who: AccountId, j: int)
    requires
        0 <= j <= nominations.len(),
    ensures
        backs(nominations, who, j) <==> exists|k: int| 0 <= k < j && votes_for(#[trigger] nominations[k], who),
    decreases j,
{
    if j > 0 {
        lemma_backs(nominations, who, j - 1);
        let last = nominations[j - 1];
        lemma_names(last.targets, who, last.targets.len() as int);
        if backs(nominations, who, j - 1) {
            let k = choose|k: int| 0 <= k < j - 1 && votes_for(#[trigger] nominations[k], who);
            assert(0 <= k < j && votes_for(nominations[k], who));
        }
        if last.stake > 0 && names(last.targets, who, last.targets.len() as int) {
            let m = choose|m: int| 0 <= m < last.targets.len() && last.targets[m] == who;
            assert(last.targets.contains(who));
            assert(votes_for(nominations[j - 1], who));
        }
        if exists|k: int| 0 <= k < j && votes_for(#[trigger] nominations[k], who) {
            let k = choose|k: int| 0 <= k < j && votes_for(#[trigger] nominations[k], who);
            if k == j - 1 {
                assert(last.targets.contains(who));
                let m = choose|m: int| 0 <= m < last.targets.len() && last.targets[m] == who;
                assert(names(last.targets, who, last.targets.len() as int));
            } else {
                assert(0 <= k < j - 1 && votes_for(nominations[k], who));
            }
        }
    }
}

/// Where the candidates are the validators with stake, in their order, and
/// a candidate is backed where a nomination with stake names it, the backed
/// candidates are as many as the validators that can be elected.
pub proof fn lemma_eligible_count(
    candidates: Seq<Candidate>,
    validators: Seq<Stake>,
    nominations: Seq<NominationView>,
    n: int,
)
    requires
        0 <= n <= validators.len(),
        lined_up(candidates, validators, validators.len() as int),
        forall|c: int|
            0 <= c < candidates.len() ==> (#[trigger] candidates[c]).backed == is_backed(
                nominations,
                candidates[c].who,
            ),
    ensures
        0 <= stake_count(validators, n) <= candidates.len(),
        crate::phragmen::backed_count(candidates, stake_count(validators, n)) == eligible_upto(
            validators,
            nominations,
            n,
        ),
    decreases n,
{
    lemma_stake_count_grows(validators, n, validators.len() as int);
    if n > 0 {
        lemma_eligible_count(candidates, validators, nominations, n - 1);
        if validators[n - 1].stake > 0 {
            let c = stake_count(validators, n - 1);
            assert(candidates[c].who == validators[n - 1].who);
            assert(candidates[c].backed == is_backed(nominations, candidates[c].who));
        }
    }
}

/// Whether one of `nominations` is that of `nominator`, has stake, and names
/// `target`.
pub open spec fn names_target(nominations: Seq<NominationView>, nominator: AccountId, target: AccountId) -> bool {
    exists|k: int|
        0 <= k < nominations.len() && (#[trigger] nominations[k]).who == nominator && votes_for(
            nominations[k],
            target,
        )
}

/// How many of the first `n` of `candidates` can still win a round.
pub open spec fn open_count(candidates: Seq<Candidate>, n: int) -> int
    decreases n,
{
    if n <= 0 {
        0
    } else {
        open_count(candidates, n - 1) + if candidates[n - 1].open() { 1int } else { 0int }
    }
}

/// Whether the two tallies have the same candidates and voters, whatever
/// their scores and loads and whoever has won.
pub open spec fn same_registry(a: TallyView, b: TallyView) -> bool {
    &&& a.candidates.len() == b.candidates.len()
    &&& a.voters.len() == b.voters.len()
    &&& forall|c: int|
        0 <= c < a.candidates.len() ==> (#[trigger] a.candidates[c]).who == b.candidates[c].who
            && a.candidates[c].backed == b.candidates[c].backed
    &&& forall|v: int|
        0 <= v < a.voters.len() ==> (#[trigger] a.voters[v]).who == b.voters[v].who
            && a.voters[v].nominator == b.voters[v].nominator
    &&& a.edges.len() == b.edges.len()
    &&& forall|i: int|
        0 <= i < a.edges.len() ==> (#[trigger] a.edges[i]).voter == b.edges[i].voter
            && a.edges[i].candidate == b.edges[i].candidate
}

impl TallyView {
    /// Every candidate is a validator with stake, every backed candidate is
    /// named by a nomination with stake, and every voter that counts as a
    /// nominator is the nominator of a nomination with stake.
    pub open spec fn from_registry(self, validators: Seq<Stake>, nominations: Seq<NominationView>) -> bool {
        &&& forall|c: int|
            0 <= c < self.candidates.len() ==> stands(validators, (#[trigger] self.candidates[c]).who)
        &&& forall|c: int|
            0 <= c < self.candidates.len() && (#[trigger] self.candidates[c]).backed ==> is_backed(
                nominations,
                self.candidates[c].who,
            )
        &&& forall|v: int|
            0 <= v < self.voters.len() && (#[trigger] self.voters[v]).nominator ==> nominates(
                nominations,
                self.voters[v].who,
            )
    }

    /// Every vote of a nominator is for a candidate that one of its
    /// nominations with stake names.
    pub open spec fn votes_from_registry(self, nominations: Seq<NominationView>) -> bool {
        forall|i: int|
            0 <= i < self.edges.len() && self.voters[(#[trigger] self.edges[i]).voter as int].nominator
                ==> names_target(
                nominations,
                self.voters[self.edges[i].voter as int].who,
                self.candidates[self.edges[i].candidate as int].who,
            )
    }

    /// Whether a nominator `nominator` votes for a candidate `candidate`.
    pub open spec fn votes(self, nominator: AccountId, candidate: AccountId) -> bool {
        exists|i: int|
            0 <= i < self.edges.len() && self.voters[(#[trigger] self.edges[i]).voter as int].nominator
                && self.voters[self.edges[i].voter as int].who == nominator
                && self.candidates[self.edges[i].candidate as int].who == candidate
    }

    /// The winners are the candidates that are marked as elected, each once,
    /// and each of them is backed.
    pub open spec fn settled(self) -> bool {
        &&& forall|c: int|
            0 <= c < self.candidates.len() ==> ((#[trigger] self.candidates[c]).elected
                <==> self.elected.contains(c as usize))
        &&& self.elected.no_duplicates()
        &&& forall|i: int|
            0 <= i < self.elected.len() ==> self.candidates[(#[trigger] self.elected[i]) as int].backed
    }

    /// How many candidates can still win a round.
    pub open spec fn open(self) -> int {
        open_count(self.candidates, self.candidates.len() as int)
    }
}

/// The best of the first `n` candidates is one of them that is open; there is
/// none only where none of them is open.
pub proof fn lemma_best(candidates: Seq<Candidate>, n: int)
    requires
        0 <= n <= candidates.len(),
    ensures
        0 <= open_count(candidates, n) <= n,
        match best(candidates, n) {
            Some(w) => 0 <= w < n && candidates[w].open() && open_count(candidates, n) > 0,
            None => open_count(candidates, n) == 0,
        },
    decreases n,
{
    if n > 0 {
        lemma_best(candidates, n - 1);
    }
}

/// Candidates that are open alike are as many open.
pub proof fn lemma_open_count_alike(a: Seq<Candidate>, b: Seq<Candidate>, n: int)
    requires
        0 <= n <= a.len(),
        a.len() == b.len(),
        forall|c: int| 0 <= c < n ==> (#[trigger] a[c]).open() == b[c].open(),
    ensures
        open_count(a, n) == open_count(b, n),
    decreases n,
{
    if n > 0 {
        lemma_open_count_alike(a, b, n - 1);
        assert(a[n - 1].open() == b[n - 1].open());
    }
}

/// Once an open candidate is elected, one less is open.
pub proof fn lemma_open_count_won(candidates: Seq<Candidate>, w: int, n: int)
    requires
        0 <= n <= candidates.len(),
        0 <= w < candidates.len(),
        candidates[w].open(),
    ensures
        open_count(candidates.update(w, Candidate { elected: true, ..candidates[w] }), n) == open_count(
            candidates,
            n,
        ) - if w < n { 1int } else { 0int },
    decreases n,
{
    if n > 0 {
        lemma_open_count_won(candidates, w, n - 1);
    }
}

/// Before anybody is elected, the backed candidates are the open ones.
pub proof fn lemma_open_count_start(candidates: Seq<Candidate>, n: int)
    requires
        0 <= n <= candidates.len(),
        forall|c: int| 0 <= c < n ==> !(#[trigger] candidates[c]).elected,
    ensures
        open_count(candidates, n) == crate::phragmen::backed_count(candidates, n),
    decreases n,
{
    if n > 0 {
        lemma_open_count_start(candidates, n - 1);
        assert(!candidates[n - 1].elected);
    }
}

/// A round leaves the candidates and voters who they are, and the winners
/// in order. Where a candidate was open, one wins, and one less is open;
/// else nobody wins.
pub proof fn lemma_round(t: TallyView)
    requires
        t.wf(),
        t.settled(),
        t.candidates.len() <= usize::MAX,
    ensures
        t.round().settled(),
        same_registry(t, t.round()),
        t.open() > 0 ==> t.round().open() == t.open() - 1 && t.round().elected.len() == t.elected.len() + 1,
        t.open() <= 0 ==> t.round().open() == t.open() && t.round().elected == t.elected,
{
    let s = t.scored();
    let n = t.candidates.len() as int;
    assert forall|c: int| 0 <= c < n implies (#[trigger] t.candidates[c]).open() == s.candidates[c].open() by {}
    lemma_open_count_alike(t.candidates, s.candidates, n);
    lemma_best(s.candidates, n);
    match best(s.candidates, n) {
        Some(w) => {
            let r = s.won(w);
            assert(r == t.round());
            lemma_open_count_won(s.candidates, w, n);
            assert(!t.candidates[w].elected);
            assert(!t.elected.contains(w as usize));
            assert(r.elected.last() == w as usize);
            assert forall|c: int| 0 <= c < r.candidates.len() implies ((#[trigger] r.candidates[c]).elected
                <==> r.elected.contains(c as usize)) by {
                if c == w {
                    assert(r.elected[r.elected.len() - 1] == c as usize);
                } else {
                    assert(r.candidates[c].elected == t.candidates[c].elected);
                    if t.elected.contains(c as usize) {
                        let i = t.elected.index_of(c as usize);
                        assert(r.elected[i] == c as usize);
                    }
                    if r.elected.contains(c as usize) {
                        let i = r.elected.index_of(c as usize);
                        assert(i < t.elected.len());
                        assert(t.elected[i] == c as usize);
                    }
                }
            }
            assert(r.elected.no_duplicates()) by {
                assert forall|i: int, j: int|
                    0 <= i < r.elected.len() && 0 <= j < r.elected.len() && i != j implies r.elected[i]
                    != r.elected[j] by {
                    if i < t.elected.len() && j < t.elected.len() {
                        assert(t.elected[i] != t.elected[j]);
                    } else if i < t.elected.len() {
                        assert(t.elected[i] == r.elected[i]);
                    } else {
                        assert(t.elected[j] == r.elected[j]);
                    }
                }
            }
            assert forall|i: int| 0 <= i < r.elected.len() implies r.candidates[(
            #[trigger] r.elected[i]) as int].backed by {
                if i < t.elected.len() {
                    assert(t.candidates[t.elected[i] as int].backed);
                    assert(t.elected[i] < t.candidates.len());
                }
            }
            assert forall|i: int| 0 <= i < t.edges.len() implies (#[trigger] t.edges[i]).voter
                == r.edges[i].voter && t.edges[i].candidate == r.edges[i].candidate by {
                assert(r.edges[i] == s.won_edge(w, s.candidates[w].score, i));
            }
        },
        None => {
            assert(s == t.round());
            assert forall|c: int| 0 <= c < s.candidates.len() implies ((#[trigger] s.candidates[c]).elected
                <==> s.elected.contains(c as usize)) by {
                assert(s.candidates[c].elected == t.candidates[c].elected);
            }
            assert forall|i: int| 0 <= i < s.elected.len() implies s.candidates[(
            #[trigger] s.elected[i]) as int].backed by {
                assert(t.candidates[t.elected[i] as int].backed);
                assert(t.elected[i] < t.candidates.len());
            }
        },
    }
}

/// A tally with the candidates and voters of one that comes from the
/// registry comes from it as well.
pub proof fn lemma_from_registry(
    a: TallyView,
    b: TallyView,
    validators: Seq<Stake>,
    nominations: Seq<NominationView>,
)
    requires
        a.from_registry(validators, nominations),
        same_registry(a, b),
    ensures
        b.from_registry(validators, nominations),
{
    assert forall|c: int| 0 <= c < b.candidates.len() implies stands(
        validators,
        (#[trigger] b.candidates[c]).who,
    ) by {
        assert(a.candidates[c].who == b.candidates[c].who);
    }
    assert forall|c: int| 0 <= c < b.candidates.len() && (#[trigger] b.candidates[c]).backed implies is_backed(
        nominations,
        b.candidates[c].who,
    ) by {
        assert(a.candidates[c].who == b.candidates[c].who);
    }
    assert forall|v: int| 0 <= v < b.voters.len() && (#[trigger] b.voters[v]).nominator implies nominates(
        nominations,
        b.voters[v].who,
    ) by {
        assert(a.voters[v].who == b.voters[v].who);
    }
}

/// Two tallies with the same candidates and voters as a third have the same
/// as each other.
pub proof fn lemma_same_registry_chain(a: TallyView, b: TallyView, c: TallyView)
    requires
        same_registry(a, b),
        same_registry(b, c),
    ensures
        same_registry(a, c),
{
    assert forall|i: int| 0 <= i < a.candidates.len() implies (#[trigger] a.candidates[i]).who
        == c.candidates[i].who && a.candidates[i].backed == c.candidates[i].backed by {
        assert(a.candidates[i].who == b.candidates[i].who);
        assert(b.candidates[i].who == c.candidates[i].who);
    }
    assert forall|v: int| 0 <= v < a.voters.len() implies (#[trigger] a.voters[v]).who == c.voters[v].who
        && a.voters[v].nominator == c.voters[v].nominator by {
        assert(a.voters[v].who == b.voters[v].who);
        assert(b.voters[v].who == c.voters[v].who);
    }
    assert forall|i: int| 0 <= i < a.edges.len() implies (#[trigger] a.edges[i]).voter == c.edges[i].voter
        && a.edges[i].candidate == c.edges[i].candidate by {
        assert(a.edges[i].voter == b.edges[i].voter);
        assert(b.edges[i].voter == c.edges[i].voter);
    }
}

/// A tally with the candidates, voters and votes of one whose votes come
/// from the registry has its votes from there as well.
pub proof fn lemma_votes_from_registry(a: TallyView, b: TallyView, nominations: Seq<NominationView>)
    requires
        a.wf(),
        a.votes_from_registry(nominations),
        same_registry(a, b),
    ensures
        b.votes_from_registry(nominations),
{
    assert forall|i: int|
        0 <= i < b.edges.len() && b.voters[(#[trigger] b.edges[i]).voter as int].nominator implies names_target(
        nominations,
        b.voters[b.edges[i].voter as int].who,
        b.candidates[b.edges[i].candidate as int].who,
    ) by {
        let e = a.edges[i];
        assert(e.voter == b.edges[i].voter && e.candidate == b.edges[i].candidate);
        assert(e.voter < a.voters.len() && e.candidate < a.candidates.len());
        assert(a.voters[e.voter as int].who == b.voters[e.voter as int].who);
        assert(a.candidates[e.candidate as int].who == b.candidates[e.candidate as int].who);
    }
}

/// The candidates that a nominator is assigned to are candidates that it
/// votes for.
pub proof fn lemma_support_voted(t: TallyView, v: int, n: int)
    requires
        t.wf(),
        0 <= v < t.voters.len(),
        t.voters[v].nominator,
        0 <= n <= t.edges.len(),
    ensures
        forall|i: int|
            0 <= i < t.support_upto(v, n).len() ==> t.votes(t.voters[v].who, (#[trigger] t.support_upto(v, n)[i]).0),
    decreases n,
{
    if n > 0 {
        lemma_support_voted(t, v, n - 1);
        let e = t.edges[n - 1];
        assert(e.candidate < t.candidates.len());
        let before = t.support_upto(v, n - 1);
        let after = t.support_upto(v, n);
        if e.voter == v && t.candidates[e.candidate as int].elected {
            assert(t.votes(t.voters[v].who, t.candidates[e.candidate as int].who));
            assert forall|i: int| 0 <= i < after.len() implies t.votes(t.voters[v].who, (#[trigger] after[i]).0) by {
                if i < before.len() {
                    assert(after[i] == before[i]);
                }
            }
        } else {
            assert(after == before);
        }
    }
}

/// The candidates that a voter is assigned to have won.
pub proof fn lemma_support_elected(t: TallyView, v: int, n: int)
    requires
        t.wf(),
        t.settled(),
        0 <= n <= t.edges.len(),
    ensures
        forall|i: int|
            0 <= i < t.support_upto(v, n).len() ==> t.elected_stashes().contains(
                (#[trigger] t.support_upto(v, n)[i]).0,
            ),
    decreases n,
{
    if n > 0 {
        lemma_support_elected(t, v, n - 1);
        let e = t.edges[n - 1];
        assert(e.candidate < t.candidates.len());
        if !(e.voter == v && t.candidates[e.candidate as int].elected) {
            assert(t.support_upto(v, n) == t.support_upto(v, n - 1));
        }
        if e.voter == v && t.candidates[e.candidate as int].elected {
            assert(t.elected.contains(e.candidate));
            let k = t.elected.index_of(e.candidate);
            assert(t.elected_stashes()[k] == t.candidates[e.candidate as int].who);
            let before = t.support_upto(v, n - 1);
            let after = t.support_upto(v, n);
            assert forall|i: int| 0 <= i < after.len() implies t.elected_stashes().contains(
                (#[trigger] after[i]).0,
            ) by {
                if i < before.len() {
                    assert(after[i] == before[i]);
                }
            }
        }
    }
}

/// The winners are validators with stake that a nomination with stake
/// names.
pub proof fn lemma_winners(t: TallyView, validators: Seq<Stake>, nominations: Seq<NominationView>)
    requires
        t.wf(),
        t.settled(),
        t.from_registry(validators, nominations),
    ensures
        forall|i: int|
            0 <= i < t.elected_stashes().len() ==> stands(validators, #[trigger] t.elected_stashes()[i])
                && is_backed(nominations, t.elected_stashes()[i]),
{
    assert forall|i: int| 0 <= i < t.elected_stashes().len() implies stands(
        validators,
        #[trigger] t.elected_stashes()[i],
    ) && is_backed(nominations, t.elected_stashes()[i]) by {
        let c = t.elected[i] as int;
        assert(c < t.candidates.len());
        assert(t.candidates[c].backed);
        assert(stands(validators, t.candidates[c].who));
    }
}

} // verus!
