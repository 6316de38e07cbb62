//! The election: sequential Phragmén over the registered validators and
//! nominators, in fixed-point arithmetic on a wide integer type.
//!
//! Every validator with stake is a candidate, and votes for itself. Every
//! nominator with stake votes for those of its targets that are candidates. A
//! candidate can win only where a nominator backs it.
//!
//! A voter carries a load, which grows whenever one of its candidates is
//! elected. In each round every open candidate gets a score, the load that
//! its voters would carry if it were elected, and the candidate with the
//! lowest score wins the round; among equal scores the lower stash wins.
//! There are as many rounds as there are places, or candidates that can win.
//! Afterwards the stake of each nominator is split between the winners that
//! it voted for, in proportion to what each added to its load.

use vstd::prelude::*;
use crate::invariants::{backs, distinct, distinct_candidates, eligible_upto, is_backed, lined_up, names};
use crate::invariants::{names_target, nominates, same_registry, stake_count, stands, stands_before};
use crate::invariants::{stashes_of, votes_for};
use crate::invariants::{lemma_backs, lemma_eligible_count, lemma_from_registry, lemma_open_count_start};
use crate::invariants::{lemma_round, lemma_same_registry_chain, lemma_support_elected, lemma_support_voted};
use crate::invariants::{lemma_votes_from_registry, lemma_winners};
use crate::primitives::{AccountId, Balance, ExtendedBalance};

verus! {

/// The denominator of the ratios by which a nominator's stake is split.
pub const ACCURACY: ExtendedBalance = 4_294_967_296;

/// The factor by which a budget is scaled up, and a load scaled down, before
/// the two are multiplied.
pub const SCALE_FACTOR: ExtendedBalance = 4_294_967_296;

/// The score of a candidate with one unit of stake behind it and no load on
/// its voters.
pub const WHOLE: ExtendedBalance = u128::MAX;

/// A registered validator and what it has bonded.
#[derive(Clone, Copy, PartialEq, Eq, Debug)]
pub struct Stake {
    pub who: AccountId,
    pub stake: Balance,
}

/// A registered nominator, what it has bonded, and whom it nominates.
#[derive(Clone, PartialEq, Eq, Debug)]
pub struct Nomination {
    pub who: AccountId,
    pub stake: Balance,
    pub targets: Vec<AccountId>,
}

/// A nomination as a plain value.
pub ghost struct NominationView {
    pub who: AccountId,
    pub stake: Balance,
    pub targets: Seq<AccountId>,
}

impl View for Nomination {
    type V = NominationView;

    open spec fn view(&self) -> NominationView {
        NominationView { who: self.who, stake: self.stake, targets: self.targets@ }
    }
}

/// The nominations in `v` as plain values.
pub open spec fn nominations_view(v: Seq<Nomination>) -> Seq<NominationView> {
    Seq::new(v.len(), |i: int| v[i]@)
}

/// A validator that stands for election.
#[derive(Clone, Copy, PartialEq, Eq, Debug)]
pub struct Candidate {
    /// The validator's stash.
    pub who: AccountId,
    /// The stake of all its voters, its own included.
    pub approval_stake: ExtendedBalance,
    /// The score it had in the last round in which it was open.
    pub score: ExtendedBalance,
    /// Whether a nominator with stake votes for it.
    pub backed: bool,
    /// Whether it has won a round.
    pub elected: bool,
}

impl Candidate {
    /// Whether the candidate can still win a round.
    pub open spec fn open(self) -> bool {
        self.backed && !self.elected
    }
}

/// An account with a vote: a candidate, which votes for itself, or a
/// nominator.
#[derive(Clone, Copy, PartialEq, Eq, Debug)]
pub struct Voter {
    /// The voter's stash.
    pub who: AccountId,
    /// The stake that it votes with.
    pub budget: Balance,
    /// The score of the candidate of its that was elected last.
    pub load: ExtendedBalance,
    /// Whether it is a nominator.
    pub nominator: bool,
}

/// The vote of one voter for one candidate.
#[derive(Clone, Copy, PartialEq, Eq, Debug)]
pub struct Edge {
    /// The place of the voter among the voters.
    pub voter: usize,
    /// The place of the candidate among the candidates.
    pub candidate: usize,
    /// By how much the voter's load grew when the candidate was elected.
    pub load: ExtendedBalance,
}

/// The state of an election.
pub struct Tally {
    candidates: Vec<Candidate>,
    voters: Vec<Voter>,
    edges: Vec<Edge>,
    /// The places of the winners among the candidates, in the order of the
    /// rounds.
    elected: Vec<usize>,
}

/// The state of an election as a plain value.
pub ghost struct TallyView {
    pub candidates: Seq<Candidate>,
    pub voters: Seq<Voter>,
    pub edges: Seq<Edge>,
    pub elected: Seq<usize>,
}

impl View for Tally {
    type V = TallyView;

    closed spec fn view(&self) -> TallyView {
        TallyView {
            candidates: self.candidates@,
            voters: self.voters@,
            edges: self.edges@,
            elected: self.elected@,
        }
    }
}

/// The sum of two amounts, held at the largest that the wide type can
/// express.
pub open spec fn sat_add(a: ExtendedBalance, b: ExtendedBalance) -> ExtendedBalance {
    if a + b > u128::MAX {
        u128::MAX
    } else {
        (a + b) as ExtendedBalance
    }
}

/// The product of two amounts, held at the largest that the wide type can
/// express.
pub open spec fn sat_mul(a: ExtendedBalance, b: ExtendedBalance) -> ExtendedBalance {
    if a * b > u128::MAX {
        u128::MAX
    } else {
        (a * b) as ExtendedBalance
    }
}

/// The difference of two amounts, held at zero.
pub open spec fn sat_sub(a: ExtendedBalance, b: ExtendedBalance) -> ExtendedBalance {
    if a < b {
        0
    } else {
        (a - b) as ExtendedBalance
    }
}

/// The product of two amounts, held at the largest that the wide type can
/// express.
pub fn saturating_product(a: ExtendedBalance, b: ExtendedBalance) -> (r: ExtendedBalance)
    ensures
        r == sat_mul(a, b),
{
    match a.checked_mul(b) {
        Some(p) => p,
        None => u128::MAX,
    }
}

/// The first place among the first `n` of `candidates` that holds `who`, or
/// `n` where none does.
pub open spec fn place_of(candidates: Seq<Candidate>, who: AccountId, n: int) -> int
    decreases n,
{
    if n <= 0 {
        0
    } else if place_of(candidates, who, n - 1) < n - 1 {
        place_of(candidates, who, n - 1)
    } else if candidates[n - 1].who == who {
        n - 1
    } else {
        n
    }
}

/// Whether one of the first `n` of `edges` joins `voter` and `candidate`.
pub open spec fn joined(edges: Seq<Edge>, voter: int, candidate: int, n: int) -> bool
    decreases n,
{
    if n <= 0 {
        false
    } else {
        joined(edges, voter, candidate, n - 1) || (edges[n - 1].voter == voter && edges[n
            - 1].candidate == candidate)
    }
}

impl TallyView {
    /// Every edge joins a voter and a candidate of the tally, and every
    /// winner is a candidate of it.
    pub open spec fn wf(self) -> bool {
        &&& forall|i: int|
            0 <= i < self.edges.len() ==> (#[trigger] self.edges[i]).voter < self.voters.len()
                && self.edges[i].candidate < self.candidates.len()
        &&& forall|i: int|
            0 <= i < self.elected.len() ==> (#[trigger] self.elected[i]) < self.candidates.len()
        &&& forall|i: int|
            0 <= i < self.candidates.len() ==> (#[trigger] self.candidates[i]).approval_stake > 0
    }

    /// The tally before any vote: nothing.
    pub open spec fn empty() -> TallyView {
        TallyView {
            candidates: Seq::empty(),
            voters: Seq::empty(),
            edges: Seq::empty(),
            elected: Seq::empty(),
        }
    }

    /// The tally with `validator` as one more candidate, where it has stake:
    /// it votes for itself.
    pub open spec fn with_candidate(self, validator: Stake) -> TallyView {
        if validator.stake == 0 {
            self
        } else {
            TallyView {
                candidates: self.candidates.push(
                    Candidate {
                        who: validator.who,
                        approval_stake: validator.stake as ExtendedBalance,
                        score: 0,
                        backed: false,
                        elected: false,
                    },
                ),
                voters: self.voters.push(
                    Voter {
                        who: validator.who,
                        budget: validator.stake,
                        load: 0,
                        nominator: false,
                    },
                ),
                edges: self.edges.push(
                    Edge {
                        voter: self.voters.len() as usize,
                        candidate: self.candidates.len() as usize,
                        load: 0,
                    },
                ),
                ..self
            }
        }
    }

    /// The tally with the first `n` of `validators` as candidates.
    pub open spec fn with_candidates(self, validators: Seq<Stake>, n: int) -> TallyView
        decreases n,
    {
        if n <= 0 {
            self
        } else {
            self.with_candidates(validators, n - 1).with_candidate(validators[n - 1])
        }
    }

    /// The tally with one more vote, of the voter that comes next, which has
    /// `stake`, for `target`: where `target` is a candidate that the voter
    /// does not vote for yet, the candidate is backed by that much more.
    pub open spec fn with_target(self, stake: Balance, target: AccountId) -> TallyView {
        let c = place_of(self.candidates, target, self.candidates.len() as int);
        if c < self.candidates.len() && !joined(
            self.edges,
            self.voters.len() as int,
            c,
            self.edges.len() as int,
        ) {
            TallyView {
                candidates: self.candidates.update(
                    c,
                    Candidate {
                        approval_stake: sat_add(
                            self.candidates[c].approval_stake,
                            stake as ExtendedBalance,
                        ),
                        backed: true,
                        ..self.candidates[c]
                    },
                ),
                edges: self.edges.push(
                    Edge { voter: self.voters.len() as usize, candidate: c as usize, load: 0 },
                ),
                ..self
            }
        } else {
            self
        }
    }

    /// The tally with the votes of the voter that comes next, which has
    /// `stake`, for the first `n` of `targets`.
    pub open spec fn with_targets(self, stake: Balance, targets: Seq<AccountId>, n: int) -> TallyView
        decreases n,
    {
        if n <= 0 {
            self
        } else {
            self.with_targets(stake, targets, n - 1).with_target(stake, targets[n - 1])
        }
    }

    /// The tally with `nomination` as one more voter, where it has stake.
    pub open spec fn with_nomination(self, nomination: NominationView) -> TallyView {
        if nomination.stake == 0 {
            self
        } else {
            let voted = self.with_targets(
                nomination.stake,
                nomination.targets,
                nomination.targets.len() as int,
            );
            TallyView {
                voters: voted.voters.push(
                    Voter {
                        who: nomination.who,
                        budget: nomination.stake,
                        load: 0,
                        nominator: true,
                    },
                ),
                ..voted
            }
        }
    }

    /// The tally with the first `n` of `nominations` as voters.
    pub open spec fn with_nominations(self, nominations: Seq<NominationView>, n: int) -> TallyView
        decreases n,
    {
        if n <= 0 {
            self
        } else {
            self.with_nominations(nominations, n - 1).with_nomination(nominations[n - 1])
        }
    }

    /// The tally at the start of an election among `validators`, with the
    /// votes of `nominations`.
    pub open spec fn initial(validators: Seq<Stake>, nominations: Seq<NominationView>) -> TallyView {
        TallyView::empty().with_candidates(validators, validators.len() as int).with_nominations(
            nominations,
            nominations.len() as int,
        )
    }
}

/// What a voter with `budget` and `load` adds to the score of a candidate
/// with `approval_stake` behind it: its share of that stake, times its load.
pub open spec fn contribution(
    budget: Balance,
    load: ExtendedBalance,
    approval_stake: ExtendedBalance,
) -> ExtendedBalance {
    sat_mul(((budget * SCALE_FACTOR) / (approval_stake as int)) as ExtendedBalance, load / SCALE_FACTOR)
}

/// Whether `a` comes before `b` in a round: by the lower score, and among
/// equal scores by the lower stash.
pub open spec fn better(a: Candidate, b: Candidate) -> bool {
    a.score < b.score || (a.score == b.score && a.who < b.who)
}

/// The place of the open candidate among the first `n` of `candidates` that
/// comes before all others, if any is open.
pub open spec fn best(candidates: Seq<Candidate>, n: int) -> Option<int>
    decreases n,
{
    if n <= 0 {
        None
    } else {
        let b = best(candidates, n - 1);
        if candidates[n - 1].open() && (b is None || better(candidates[n - 1], candidates[b.unwrap()])) {
            Some(n - 1)
        } else {
            b
        }
    }
}

impl TallyView {
    /// The score of the candidate at place `c` as far as the first `n` edges
    /// make it: one whole over its approval stake, and what each voter of
    /// its adds to that.
    pub open spec fn score_upto(self, c: int, n: int) -> ExtendedBalance
        decreases n,
    {
        if n <= 0 {
            WHOLE / self.candidates[c].approval_stake
        } else {
            let e = self.edges[n - 1];
            if e.candidate == c {
                sat_add(
                    self.score_upto(c, n - 1),
                    contribution(
                        self.voters[e.voter as int].budget,
                        self.voters[e.voter as int].load,
                        self.candidates[c].approval_stake,
                    ),
                )
            } else {
                self.score_upto(c, n - 1)
            }
        }
    }

    /// The candidate at place `c` with its score of this round, where it is
    /// open.
    pub open spec fn scored_candidate(self, c: int) -> Candidate {
        if self.candidates[c].open() {
            Candidate { score: self.score_upto(c, self.edges.len() as int), ..self.candidates[c] }
        } else {
            self.candidates[c]
        }
    }

    /// The tally with the scores of this round.
    pub open spec fn scored(self) -> TallyView {
        TallyView {
            candidates: Seq::new(self.candidates.len(), |c: int| self.scored_candidate(c)),
            ..self
        }
    }

    /// The edge at place `i` once the candidate at place `w` has won with
    /// `score`: an edge to the winner carries what the score adds to the load
    /// of its voter.
    pub open spec fn won_edge(self, w: int, score: ExtendedBalance, i: int) -> Edge {
        if self.edges[i].candidate == w {
            Edge { load: sat_sub(score, self.voters[self.edges[i].voter as int].load), ..self.edges[i] }
        } else {
            self.edges[i]
        }
    }

    /// The voter at place `v` once the candidate at place `w` has won with
    /// `score`: a voter of the winner carries the score as its load.
    pub open spec fn won_voter(self, w: int, score: ExtendedBalance, v: int) -> Voter {
        if joined(self.edges, v, w, self.edges.len() as int) {
            Voter { load: score, ..self.voters[v] }
        } else {
            self.voters[v]
        }
    }

    /// The tally once the candidate at place `w` has won the round.
    pub open spec fn won(self, w: int) -> TallyView {
        let score = self.candidates[w].score;
        TallyView {
            candidates: self.candidates.update(w, Candidate { elected: true, ..self.candidates[w] }),
            voters: Seq::new(self.voters.len(), |v: int| self.won_voter(w, score, v)),
            edges: Seq::new(self.edges.len(), |i: int| self.won_edge(w, score, i)),
            elected: self.elected.push(w as usize),
        }
    }

    /// The tally after one more round: the open candidates are scored and
    /// the best of them wins. Where none is open, nobody wins.
    pub open spec fn round(self) -> TallyView {
        let scored = self.scored();
        match best(scored.candidates, scored.candidates.len() as int) {
            Some(w) => scored.won(w),
            None => scored,
        }
    }

    /// The tally after `n` more rounds.
    pub open spec fn rounds(self, n: int) -> TallyView
        decreases n,
    {
        if n <= 0 {
            self
        } else {
            self.rounds(n - 1).round()
        }
    }
}

/// The shares of a nominator: the candidates that it is assigned to, each
/// with a load or a ratio.
pub type Shares = Seq<(AccountId, ExtendedBalance)>;

/// A nominator and the ratios, in parts of `ACCURACY`, by which its stake is
/// split among the elected candidates that it voted for.
#[derive(Clone, PartialEq, Eq, Debug)]
pub struct Assignment {
    pub who: AccountId,
    pub shares: Vec<(AccountId, ExtendedBalance)>,
}

/// An assignment as a plain value.
pub ghost struct AssignmentView {
    pub who: AccountId,
    pub shares: Shares,
}

impl View for Assignment {
    type V = AssignmentView;

    open spec fn view(&self) -> AssignmentView {
        AssignmentView { who: self.who, shares: self.shares@ }
    }
}

/// The assignments in `v` as plain values.
pub open spec fn assignments_view(v: Seq<Assignment>) -> Seq<AssignmentView> {
    Seq::new(v.len(), |i: int| v[i]@)
}

/// The amounts in `shares`, all together.
pub open spec fn shares_sum(shares: Shares) -> int
    decreases shares.len(),
{
    if shares.len() == 0 {
        0
    } else {
        shares_sum(shares.drop_last()) + shares.last().1
    }
}

/// The loads of the first `n` of `shares`, each scaled down, all together.
pub open spec fn scaled_sum(shares: Shares, n: int) -> ExtendedBalance
    decreases n,
{
    if n <= 0 {
        0
    } else {
        sat_add(scaled_sum(shares, n - 1), shares[n - 1].1 / SCALE_FACTOR)
    }
}

/// The part of `ACCURACY` that `load` is of loads that add up to `sum` once
/// scaled down, rounded down.
pub open spec fn raw_ratio(load: ExtendedBalance, sum: ExtendedBalance) -> ExtendedBalance {
    if sum == 0 {
        0
    } else {
        ((ACCURACY * (load / SCALE_FACTOR)) / (sum as int)) as ExtendedBalance
    }
}

/// The first `n` of `shares` with a ratio in place of each load: its part of
/// the loads, as far as the ratios before it leave room under `ACCURACY`.
pub open spec fn ratios_upto(shares: Shares, sum: ExtendedBalance, n: int) -> Shares
    decreases n,
{
    if n <= 0 {
        Seq::empty()
    } else {
        let before = ratios_upto(shares, sum, n - 1);
        let left = ACCURACY - shares_sum(before);
        let raw = raw_ratio(shares[n - 1].1, sum);
        before.push((shares[n - 1].0, if raw <= left { raw } else { left as ExtendedBalance }))
    }
}

/// The ratios with what they leave of `ACCURACY` spread over them: each gets
/// the same part, and the first ones one more until nothing is left.
pub open spec fn topped_up(ratios: Shares) -> Shares {
    let left = ACCURACY - shares_sum(ratios);
    let k = ratios.len() as int;
    Seq::new(
        ratios.len(),
        |i: int| (ratios[i].0, (ratios[i].1 + left / k + if i < left % k { 1int } else { 0int }) as ExtendedBalance),
    )
}

/// The ratios by which a stake is split when the loads of its votes are
/// `shares`: in proportion to the loads, and adding up to `ACCURACY`.
pub open spec fn split(shares: Shares) -> Shares {
    topped_up(ratios_upto(shares, scaled_sum(shares, shares.len() as int), shares.len() as int))
}

/// How many of the first `n` of `candidates` are backed.
pub open spec fn backed_count(candidates: Seq<Candidate>, n: int) -> int
    decreases n,
{
    if n <= 0 {
        0
    } else {
        backed_count(candidates, n - 1) + if candidates[n - 1].backed { 1int } else { 0int }
    }
}

impl TallyView {
    /// The elected candidates that the voter at place `v` votes for by one
    /// of the first `n` edges, each with the load of that edge.
    pub open spec fn support_upto(self, v: int, n: int) -> Shares
        decreases n,
    {
        if n <= 0 {
            Seq::empty()
        } else {
            let e = self.edges[n - 1];
            if e.voter == v && self.candidates[e.candidate as int].elected {
                self.support_upto(v, n - 1).push((self.candidates[e.candidate as int].who, e.load))
            } else {
                self.support_upto(v, n - 1)
            }
        }
    }

    /// The assignments of the nominators among the first `n` voters: one for
    /// each that voted for an elected candidate.
    pub open spec fn assignments_upto(self, n: int) -> Seq<AssignmentView>
        decreases n,
    {
        if n <= 0 {
            Seq::empty()
        } else {
            let support = self.support_upto(n - 1, self.edges.len() as int);
            if self.voters[n - 1].nominator && support.len() > 0 {
                self.assignments_upto(n - 1).push(
                    AssignmentView { who: self.voters[n - 1].who, shares: split(support) },
                )
            } else {
                self.assignments_upto(n - 1)
            }
        }
    }

    /// Whether `who` is one of the voters that count as nominators.
    pub open spec fn has_nominator(self, who: AccountId) -> bool {
        exists|v: int| 0 <= v < self.voters.len() && (#[trigger] self.voters[v]).nominator && self.voters[v].who == who
    }

    /// The stashes of the winners, in the order of the rounds.
    pub open spec fn elected_stashes(self) -> Seq<AccountId> {
        Seq::new(self.elected.len(), |i: int| self.candidates[self.elected[i] as int].who)
    }
}

impl TallyView {
    /// What holds of the tally once the first `n` of `validators` have been
    /// made candidates: it holds those of them that have stake, in their
    /// order, and nobody is backed or elected yet.
    #[verifier::opaque]
    pub open spec fn seated(self, validators: Seq<Stake>, n: int) -> bool {
        &&& self == TallyView::empty().with_candidates(validators, n)
        &&& self.wf()
        &&& self.elected.len() == 0
        &&& forall|c: int|
            0 <= c < self.candidates.len() ==> !(#[trigger] self.candidates[c]).elected
                && !self.candidates[c].backed && stands(validators, self.candidates[c].who)
        &&& forall|v: int| 0 <= v < self.voters.len() ==> !(#[trigger] self.voters[v]).nominator
        &&& lined_up(self.candidates, validators, n)
        &&& forall|c: int|
            0 <= c < self.candidates.len() ==> stands_before(
                validators,
                (#[trigger] self.candidates[c]).who,
                n,
            )
        &&& distinct(validators) ==> distinct_candidates(self.candidates)
    }

    /// What holds of the tally once the votes of the first `j` of
    /// `nominations` have been counted, from `start` on: the candidates are
    /// the same, and where no stash stands twice, those are backed that one
    /// of these nominations backs.
    #[verifier::opaque]
    pub open spec fn polled(
        self,
        start: TallyView,
        validators: Seq<Stake>,
        nominations: Seq<NominationView>,
        j: int,
    ) -> bool {
        &&& self == start.with_nominations(nominations, j)
        &&& self.wf()
        &&& self.elected.len() == 0
        &&& self.from_registry(validators, nominations)
        &&& self.votes_from_registry(nominations)
        &&& forall|c: int| 0 <= c < self.candidates.len() ==> !(#[trigger] self.candidates[c]).elected
        &&& stashes_of(self.candidates) == stashes_of(start.candidates)
        &&& distinct(validators) ==> distinct_candidates(self.candidates)
        &&& distinct(validators) ==> forall|c: int|
            0 <= c < self.candidates.len() ==> (#[trigger] self.candidates[c]).backed == backs(
                nominations,
                self.candidates[c].who,
                j,
            )
    }

    /// What holds of the tally while the votes of the nomination at place
    /// `j` are counted, from `before` on, once the first `k` of them have
    /// been: the nominator is not a voter yet, and where no stash stands
    /// twice, those are backed that an earlier nomination backs or one of
    /// these votes names.
    #[verifier::opaque]
    pub open spec fn polling(
        self,
        before: TallyView,
        start: TallyView,
        validators: Seq<Stake>,
        nominations: Seq<NominationView>,
        j: int,
        k: int,
    ) -> bool {
        &&& 0 <= j < nominations.len()
        &&& nominations[j].stake > 0
        &&& 0 <= k <= nominations[j].targets.len()
        &&& self == before.with_targets(nominations[j].stake, nominations[j].targets, k)
        &&& forall|i: int|
            0 <= i < self.edges.len() ==> (#[trigger] self.edges[i]).voter <= self.voters.len()
                && self.edges[i].candidate < self.candidates.len()
        &&& forall|i: int|
            0 <= i < self.candidates.len() ==> (#[trigger] self.candidates[i]).approval_stake > 0
        &&& self.elected.len() == 0
        &&& self.voters == before.voters
        &&& self.from_registry(validators, nominations)
        &&& forall|c: int| 0 <= c < self.candidates.len() ==> !(#[trigger] self.candidates[c]).elected
        &&& stashes_of(self.candidates) == stashes_of(start.candidates)
        &&& distinct(validators) ==> distinct_candidates(self.candidates)
        &&& distinct(validators) ==> forall|c: int|
            0 <= c < self.candidates.len() ==> (#[trigger] self.candidates[c]).backed == (backs(
                nominations,
                self.candidates[c].who,
                j,
            ) || names(nominations[j].targets, self.candidates[c].who, k))
        &&& forall|i: int|
            0 <= i < self.edges.len() && (#[trigger] self.edges[i]).voter == self.voters.len()
                ==> self.candidates[self.edges[i].candidate as int].backed && votes_for(
                nominations[j],
                self.candidates[self.edges[i].candidate as int].who,
            )
        &&& forall|i: int|
            0 <= i < self.edges.len() && (#[trigger] self.edges[i]).voter < self.voters.len()
                && self.voters[self.edges[i].voter as int].nominator ==> names_target(
                nominations,
                self.voters[self.edges[i].voter as int].who,
                self.candidates[self.edges[i].candidate as int].who,
            )
    }
}

/// How many validators can be elected: those with stake that a nomination
/// with stake names.
pub open spec fn eligible(validators: Seq<Stake>, nominations: Seq<NominationView>) -> int {
    let start = TallyView::initial(validators, nominations);
    backed_count(start.candidates, start.candidates.len() as int)
}

/// How many validators an election for `validator_count` places elects: as
/// many as there are places, or as can be elected.
pub open spec fn seats(validator_count: usize, validators: Seq<Stake>, nominations: Seq<NominationView>) -> int {
    if validator_count <= eligible(validators, nominations) {
        validator_count as int
    } else {
        eligible(validators, nominations)
    }
}

/// The tally at the end of an election for `validator_count` places: a round
/// for each place, as far as there are backed candidates.
pub open spec fn final_tally(
    validator_count: usize,
    validators: Seq<Stake>,
    nominations: Seq<NominationView>,
) -> TallyView {
    let start = TallyView::initial(validators, nominations);
    let backed = backed_count(start.candidates, start.candidates.len() as int);
    start.rounds(if validator_count <= backed { validator_count as int } else { backed })
}

/// The outcome of an election for `validator_count` places with a floor of
/// `minimum_validator_count`: the stashes of the winners and the assignments
/// of the nominators, or nothing where fewer won than the floor, which is at
/// least one.
pub open spec fn election(
    validator_count: usize,
    minimum_validator_count: usize,
    validators: Seq<Stake>,
    nominations: Seq<NominationView>,
) -> Option<(Seq<AccountId>, Seq<AssignmentView>)> {
    let tally = final_tally(validator_count, validators, nominations);
    if tally.elected.len() < minimum_validator_count || tally.elected.len() < 1 {
        None
    } else {
        Some((tally.elected_stashes(), tally.assignments_upto(tally.voters.len() as int)))
    }
}

impl Tally {
    /// The place of `who` among the candidates, or their number where it is
    /// none of them.
    fn find(&self, who: AccountId) -> (c: usize)
        ensures
            c as int == place_of(self@.candidates, who, self@.candidates.len() as int),
            c <= self@.candidates.len(),
            c < self@.candidates.len() ==> self@.candidates[c as int].who == who,
            c == self@.candidates.len() ==> forall|i: int|
                0 <= i < self@.candidates.len() ==> (#[trigger] self@.candidates[i]).who != who,
    {
        let mut i: usize = 0;
        while i < self.candidates.len()
            invariant
                i <= self.candidates.len(),
                place_of(self@.candidates, who, i as int) == i,
                forall|k: int| 0 <= k < i ==> (#[trigger] self@.candidates[k]).who != who,
            decreases self.candidates.len() - i,
        {
            if self.candidates[i].who == who {
                proof {
                    lemma_place_found(self@.candidates, who, i as int, self@.candidates.len() as int);
                }
                return i;
            }
            i += 1;
        }
        i
    }

    /// Whether the voter at place `voter` votes for the candidate at place
    /// `candidate`.
    fn has_edge(&self, voter: usize, candidate: usize) -> (r: bool)
        ensures
            r == joined(self@.edges, voter as int, candidate as int, self@.edges.len() as int),
            r ==> exists|i: int|
                0 <= i < self@.edges.len() && (#[trigger] self@.edges[i]).voter == voter
                    && self@.edges[i].candidate == candidate,
    {
        let mut i: usize = 0;
        let mut found = false;
        while i < self.edges.len()
            invariant
                i <= self.edges.len(),
                found == joined(self@.edges, voter as int, candidate as int, i as int),
                found ==> exists|k: int|
                    0 <= k < i && (#[trigger] self@.edges[k]).voter == voter && self@.edges[k].candidate
                        == candidate,
            decreases self.edges.len() - i,
        {
            if self.edges[i].voter == voter && self.edges[i].candidate == candidate {
                found = true;
            }
            i += 1;
        }
        found
    }

    /// Makes `validator` a candidate, where it has stake.
    fn seat(&mut self, validator: Stake, Ghost(validators): Ghost<Seq<Stake>>, Ghost(i): Ghost<int>)
        requires
            old(self)@.seated(validators, i),
            0 <= i < validators.len(),
            validators[i] == validator,
        ensures
            final(self)@.seated(validators, i + 1),
    {
        reveal(TallyView::seated);
        let ghost lined = self@;
        if validator.stake != 0 {
            let voter = self.voters.len();
            let candidate = self.candidates.len();
            self.candidates.push(
                Candidate {
                    who: validator.who,
                    approval_stake: validator.stake as ExtendedBalance,
                    score: 0,
                    backed: false,
                    elected: false,
                },
            );
            self.voters.push(Voter { who: validator.who, budget: validator.stake, load: 0, nominator: false });
            self.edges.push(Edge { voter, candidate, load: 0 });
            proof {
                let after = self@;
                assert(after.candidates.drop_last() =~= lined.candidates);
                assert(after.edges.drop_last() =~= lined.edges);
                lemma_wf_grown(lined, after);
                assert(stands(validators, validator.who));
                assert forall|c: int| 0 <= c < after.candidates.len() implies !(
                #[trigger] after.candidates[c]).elected && !after.candidates[c].backed && stands(
                    validators,
                    after.candidates[c].who,
                ) by {
                    if c < lined.candidates.len() {
                        assert(after.candidates[c] == lined.candidates[c]);
                    }
                }
                assert forall|v: int| 0 <= v < after.voters.len() implies !(
                #[trigger] after.voters[v]).nominator by {
                    if v < lined.voters.len() {
                        assert(after.voters[v] == lined.voters[v]);
                    }
                }
                if distinct(validators) {
                    assert forall|a: int, b: int| 0 <= a < b < after.candidates.len() implies (
                    #[trigger] after.candidates[a]).who != (#[trigger] after.candidates[b]).who by {
                        assert(after.candidates[a] == lined.candidates[a]);
                        if b < lined.candidates.len() {
                            assert(after.candidates[b] == lined.candidates[b]);
                        } else {
                            assert(stands_before(validators, lined.candidates[a].who, i));
                            let j = choose|j: int|
                                0 <= j < i && (#[trigger] validators[j]).who == lined.candidates[a].who;
                            assert(validators[j].who != validators[i].who);
                        }
                    }
                }
            }
        }
        proof {
            let after = self@;
            assert forall|j: int| 0 <= j < i + 1 && (#[trigger] validators[j]).stake > 0 implies 0
                <= stake_count(validators, j) < after.candidates.len() && after.candidates[stake_count(
                validators,
                j,
            )].who == validators[j].who by {
                if j < i {
                    assert(lined.candidates[stake_count(validators, j)].who == validators[j].who);
                    assert(after.candidates[stake_count(validators, j)] == lined.candidates[stake_count(
                        validators,
                        j,
                    )]);
                }
            }
            assert forall|c: int| 0 <= c < after.candidates.len() implies stands_before(
                validators,
                (#[trigger] after.candidates[c]).who,
                i + 1,
            ) by {
                if c < lined.candidates.len() {
                    assert(after.candidates[c] == lined.candidates[c]);
                    assert(stands_before(validators, lined.candidates[c].who, i));
                    let j = choose|j: int|
                        0 <= j < i && (#[trigger] validators[j]).who == lined.candidates[c].who;
                    assert(0 <= j < i + 1 && validators[j].who == after.candidates[c].who);
                } else {
                    assert(validators[i].who == after.candidates[c].who);
                }
            }
        }
    }

    /// Counts the vote of the voter that comes next for `target`.
    fn vote(
        &mut self,
        stake: Balance,
        target: AccountId,
        Ghost(before): Ghost<TallyView>,
        Ghost(start): Ghost<TallyView>,
        Ghost(validators): Ghost<Seq<Stake>>,
        Ghost(views): Ghost<Seq<NominationView>>,
        Ghost(j): Ghost<int>,
        Ghost(k): Ghost<int>,
    )
        requires
            old(self)@.polling(before, start, validators, views, j, k),
            k < views[j].targets.len(),
            views[j].targets[k] == target,
            views[j].stake == stake,
        ensures
            final(self)@.polling(before, start, validators, views, j, k + 1),
    {
        reveal(TallyView::polling);
        let ghost targets = views[j].targets;
        let ghost held = self@;
        let c = self.find(target);
        proof {
            assert forall|i: int| 0 <= i < held.candidates.len() && (#[trigger] held.candidates[i]).who
                != target implies names(targets, held.candidates[i].who, k + 1) == names(
                targets,
                held.candidates[i].who,
                k,
            ) by {}
        }
        if c < self.candidates.len() {
            let voter = self.voters.len();
            let joined = self.has_edge(voter, c);
            proof {
                if joined {
                    let e = choose|e: int|
                        0 <= e < held.edges.len() && (#[trigger] held.edges[e]).voter == voter
                            && held.edges[e].candidate == c;
                    assert(held.candidates[held.edges[e].candidate as int].backed);
                }
                if distinct(validators) {
                    assert forall|i: int| 0 <= i < held.candidates.len() && i != c implies (
                    #[trigger] held.candidates[i]).who != target by {
                        if i < c {
                            assert(held.candidates[i].who != held.candidates[c as int].who);
                        } else {
                            assert(held.candidates[c as int].who != held.candidates[i].who);
                        }
                    }
                }
            }
            if !joined {
                let old = self.candidates[c];
                self.candidates[c] = Candidate {
                    who: old.who,
                    approval_stake: old.approval_stake.saturating_add(stake as ExtendedBalance),
                    score: old.score,
                    backed: true,
                    elected: old.elected,
                };
                self.edges.push(Edge { voter, candidate: c, load: 0 });
                proof {
                    let after = self@;
                    assert forall|i: int| 0 <= i < after.candidates.len() implies (
                    #[trigger] after.candidates[i]).approval_stake > 0 by {
                        assert(held.candidates[i].approval_stake > 0);
                    }
                    assert forall|i: int| 0 <= i < after.edges.len() implies (#[trigger] after.edges[i]).voter
                        <= after.voters.len() && after.edges[i].candidate < after.candidates.len() by {
                        if i < held.edges.len() {
                            assert(held.edges[i].voter <= held.voters.len());
                        }
                    }
                    assert(targets.contains(target));
                    assert(votes_for(views[j], target));
                    assert(is_backed(views, target));
                    assert forall|i: int| 0 <= i < after.candidates.len() implies stands(
                        validators,
                        (#[trigger] after.candidates[i]).who,
                    ) && !after.candidates[i].elected && (after.candidates[i].backed ==> is_backed(
                        views,
                        after.candidates[i].who,
                    )) by {
                        assert(held.candidates[i].who == after.candidates[i].who);
                        assert(stands(validators, held.candidates[i].who));
                        assert(!held.candidates[i].elected);
                        if i != c {
                            assert(held.candidates[i] == after.candidates[i]);
                        }
                    }
                    assert(stashes_of(after.candidates) =~= stashes_of(held.candidates));
                    assert forall|i: int|
                        0 <= i < after.edges.len() && (#[trigger] after.edges[i]).voter
                            == after.voters.len() implies after.candidates[after.edges[i].candidate as int].backed
                        && votes_for(views[j], after.candidates[after.edges[i].candidate as int].who) by {
                        if i < held.edges.len() {
                            assert(held.edges[i] == after.edges[i]);
                            assert(held.candidates[held.edges[i].candidate as int].backed);
                            assert(held.candidates[held.edges[i].candidate as int].who
                                == after.candidates[held.edges[i].candidate as int].who);
                        }
                    }
                    assert forall|i: int|
                        0 <= i < after.edges.len() && (#[trigger] after.edges[i]).voter < after.voters.len()
                            && after.voters[after.edges[i].voter as int].nominator implies names_target(
                        views,
                        after.voters[after.edges[i].voter as int].who,
                        after.candidates[after.edges[i].candidate as int].who,
                    ) by {
                        assert(held.edges[i] == after.edges[i]);
                        assert(held.candidates[held.edges[i].candidate as int].who
                            == after.candidates[held.edges[i].candidate as int].who);
                    }
                    if distinct(validators) {
                        assert forall|a: int, b: int| 0 <= a < b < after.candidates.len() implies (
                        #[trigger] after.candidates[a]).who != (#[trigger] after.candidates[b]).who by {
                            assert(held.candidates[a].who != held.candidates[b].who);
                        }
                    }
                }
            }
        }
        proof {
            let after = self@;
            if distinct(validators) {
                assert forall|i: int| 0 <= i < after.candidates.len() implies (
                #[trigger] after.candidates[i]).backed == (backs(views, after.candidates[i].who, j) || names(
                    targets,
                    after.candidates[i].who,
                    k + 1,
                )) by {
                    assert(after.candidates[i].who == held.candidates[i].who);
                    assert(held.candidates[i].backed == (backs(views, held.candidates[i].who, j) || names(
                        targets,
                        held.candidates[i].who,
                        k,
                    )));
                    if c < held.candidates.len() && i == c {
                        assert(targets[k] == held.candidates[i].who);
                        assert(after.candidates[i].backed);
                    } else {
                        assert(held.candidates[i].who != target);
                        assert(after.candidates[i].backed == held.candidates[i].backed);
                    }
                }
            }
        }
    }

    /// Counts the votes of `nomination`, where it has stake, and makes it a
    /// voter.
    fn poll(
        &mut self,
        nomination: &Nomination,
        Ghost(start): Ghost<TallyView>,
        Ghost(validators): Ghost<Seq<Stake>>,
        Ghost(views): Ghost<Seq<NominationView>>,
        Ghost(j): Ghost<int>,
    )
        requires
            old(self)@.polled(start, validators, views, j),
            0 <= j < views.len(),
            views[j] == nomination@,
        ensures
            final(self)@.polled(start, validators, views, j + 1),
    {
        reveal(TallyView::polled);
        if nomination.stake != 0 {
            let ghost before = self@;
            proof {
                reveal(TallyView::polling);
                assert forall|i: int|
                    0 <= i < before.edges.len() && (#[trigger] before.edges[i]).voter
                        == before.voters.len() implies before.candidates[before.edges[i].candidate as int].backed by {
                    assert(before.edges[i].voter < before.voters.len());
                }
                assert forall|i: int| 0 <= i < before.edges.len() implies (#[trigger] before.edges[i]).voter
                    <= before.voters.len() && before.edges[i].candidate < before.candidates.len() by {
                    assert(before.edges[i].voter < before.voters.len());
                }
                assert forall|i: int|
                    0 <= i < before.edges.len() && (#[trigger] before.edges[i]).voter
                        == before.voters.len() implies before.candidates[before.edges[i].candidate as int].backed
                    && votes_for(views[j], before.candidates[before.edges[i].candidate as int].who) by {
                    assert(before.edges[i].voter < before.voters.len());
                }
            }
            let mut k: usize = 0;
            while k < nomination.targets.len()
                invariant
                    k <= nomination.targets.len(),
                    0 <= j < views.len(),
                    views[j] == nomination@,
                    self@.polling(before, start, validators, views, j, k as int),
                decreases nomination.targets.len() - k,
            {
                self.vote(
                    nomination.stake,
                    nomination.targets[k],
                    Ghost(before),
                    Ghost(start),
                    Ghost(validators),
                    Ghost(views),
                    Ghost(j),
                    Ghost(k as int),
                );
                k += 1;
            }
            let ghost voted = self@;
            self.voters.push(
                Voter { who: nomination.who, budget: nomination.stake, load: 0, nominator: true },
            );
            proof {
                reveal(TallyView::polling);
                let after = self@;
                assert forall|i: int| 0 <= i < after.edges.len() implies (#[trigger] after.edges[i]).voter
                    < after.voters.len() && after.edges[i].candidate < after.candidates.len() by {
                    assert(voted.edges[i].voter <= voted.voters.len());
                }
                assert forall|i: int| 0 <= i < after.candidates.len() implies (
                #[trigger] after.candidates[i]).approval_stake > 0 by {
                    assert(voted.candidates[i].approval_stake > 0);
                }
                assert(after.wf());
                assert forall|i: int|
                    0 <= i < after.edges.len() && after.voters[(
                    #[trigger] after.edges[i]).voter as int].nominator implies names_target(
                    views,
                    after.voters[after.edges[i].voter as int].who,
                    after.candidates[after.edges[i].candidate as int].who,
                ) by {
                    let e = voted.edges[i];
                    if e.voter < voted.voters.len() {
                        assert(after.voters[e.voter as int] == voted.voters[e.voter as int]);
                    } else {
                        assert(votes_for(views[j], voted.candidates[e.candidate as int].who));
                        assert(views[j].who == after.voters[e.voter as int].who);
                    }
                }
                assert(nominates(views, nomination.who));
                assert forall|v: int| 0 <= v < after.voters.len() && (
                #[trigger] after.voters[v]).nominator implies nominates(views, after.voters[v].who) by {
                    if v < voted.voters.len() {
                        assert(after.voters[v] == voted.voters[v]);
                    }
                }
                if distinct(validators) {
                    assert forall|c: int| 0 <= c < after.candidates.len() implies (
                    #[trigger] after.candidates[c]).backed == backs(views, after.candidates[c].who, j + 1) by {
                        assert(voted.candidates[c].backed == (backs(views, voted.candidates[c].who, j)
                            || names(
                            nomination.targets@,
                            voted.candidates[c].who,
                            nomination.targets@.len() as int,
                        )));
                    }
                }
            }
        } else {
            proof {
                let after = self@;
                if distinct(validators) {
                    assert forall|c: int| 0 <= c < after.candidates.len() implies (
                    #[trigger] after.candidates[c]).backed == backs(views, after.candidates[c].who, j + 1) by {
                        assert(after.candidates[c].backed == backs(views, after.candidates[c].who, j));
                    }
                }
            }
        }
    }

    /// The tally at the start of an election among `validators`, with the
    /// votes of `nominations`.
    pub fn new(validators: &Vec<Stake>, nominations: &Vec<Nomination>) -> (r: Tally)
        ensures
            r@ == TallyView::initial(validators@, nominations_view(nominations@)),
            r@.wf(),
            r@.elected.len() == 0,
            r@.settled(),
            r@.from_registry(validators@, nominations_view(nominations@)),
            r@.votes_from_registry(nominations_view(nominations@)),
            forall|c: int| 0 <= c < r@.candidates.len() ==> !(#[trigger] r@.candidates[c]).elected,
            distinct(validators@) ==> backed_count(r@.candidates, r@.candidates.len() as int)
                == eligible_upto(validators@, nominations_view(nominations@), validators@.len() as int),
            distinct(validators@) ==> distinct_candidates(r@.candidates),
    {
        let mut tally = Tally {
            candidates: Vec::new(),
            voters: Vec::new(),
            edges: Vec::new(),
            elected: Vec::new(),
        };
        proof {
            lemma_seated_start(validators@);
        }
        let mut i: usize = 0;
        while i < validators.len()
            invariant
                i <= validators.len(),
                tally@.seated(validators@, i as int),
            decreases validators.len() - i,
        {
            tally.seat(validators[i], Ghost(validators@), Ghost(i as int));
            i += 1;
        }
        let ghost views = nominations_view(nominations@);
        let ghost start = tally@;
        proof {
            lemma_polled_start(start, validators@, views);
        }
        let mut j: usize = 0;
        while j < nominations.len()
            invariant
                j <= nominations.len(),
                views == nominations_view(nominations@),
                tally@.polled(start, validators@, views, j as int),
            decreases nominations.len() - j,
        {
            tally.poll(&nominations[j], Ghost(start), Ghost(validators@), Ghost(views), Ghost(j as int));
            j += 1;
        }
        proof {
            lemma_polled_end(tally@, start, validators@, views);
        }
        tally
    }

    /// Gives every open candidate its score of this round.
    fn score(&mut self)
        requires
            old(self)@.wf(),
        ensures
            final(self)@ == old(self)@.scored(),
            final(self)@.wf(),
    {
        let ghost before = self@;
        let mut c: usize = 0;
        while c < self.candidates.len()
            invariant
                c <= self.candidates.len(),
                before.wf(),
                self@.voters == before.voters,
                self@.edges == before.edges,
                self@.elected == before.elected,
                self@.candidates.len() == before.candidates.len(),
                forall|i: int|
                    0 <= i < c ==> #[trigger] self@.candidates[i] == if before.candidates[i].open() {
                        Candidate { score: before.score_upto(i, 0), ..before.candidates[i] }
                    } else {
                        before.candidates[i]
                    },
                forall|i: int|
                    c <= i < self@.candidates.len() ==> #[trigger] self@.candidates[i]
                        == before.candidates[i],
            decreases self.candidates.len() - c,
        {
            let old = self.candidates[c];
            assert(before.candidates[c as int].approval_stake > 0);
            if old.backed && !old.elected {
                self.candidates[c] = Candidate {
                    who: old.who,
                    approval_stake: old.approval_stake,
                    score: WHOLE / old.approval_stake,
                    backed: old.backed,
                    elected: old.elected,
                };
            }
            c += 1;
        }
        let mut i: usize = 0;
        while i < self.edges.len()
            invariant
                i <= self.edges.len(),
                before.wf(),
                self@.voters == before.voters,
                self@.edges == before.edges,
                self@.elected == before.elected,
                self@.candidates.len() == before.candidates.len(),
                forall|k: int|
                    0 <= k < self@.candidates.len() ==> #[trigger] self@.candidates[k]
                        == if before.candidates[k].open() {
                        Candidate { score: before.score_upto(k, i as int), ..before.candidates[k] }
                    } else {
                        before.candidates[k]
                    },
            decreases self.edges.len() - i,
        {
            let e = self.edges[i];
            assert(before.edges[i as int].voter < before.voters.len());
            let old = self.candidates[e.candidate];
            assert(before.candidates[e.candidate as int].approval_stake > 0);
            if old.backed && !old.elected {
                let voter = self.voters[e.voter];
                let share = (voter.budget as ExtendedBalance * SCALE_FACTOR) / old.approval_stake;
                let added = saturating_product(share, voter.load / SCALE_FACTOR);
                self.candidates[e.candidate] = Candidate {
                    who: old.who,
                    approval_stake: old.approval_stake,
                    score: old.score.saturating_add(added),
                    backed: old.backed,
                    elected: old.elected,
                };
            }
            i += 1;
        }
        assert(self@.candidates =~= before.scored().candidates);
        proof {
            assert forall|k: int| 0 <= k < self@.candidates.len() implies (
            #[trigger] self@.candidates[k]).approval_stake > 0 by {
                assert(before.candidates[k].approval_stake > 0);
            }
        }
    }

    /// The place of the open candidate that comes before all others, if any
    /// is open.
    fn best(&self) -> (r: Option<usize>)
        ensures
            match r {
                Some(w) => best(self@.candidates, self@.candidates.len() as int) == Some(w as int) && w
                    < self@.candidates.len() && self@.candidates[w as int].open(),
                None => best(self@.candidates, self@.candidates.len() as int) is None,
            },
    {
        let mut found: Option<usize> = None;
        let mut c: usize = 0;
        while c < self.candidates.len()
            invariant
                c <= self.candidates.len(),
                match found {
                    Some(w) => best(self@.candidates, c as int) == Some(w as int) && w < c
                        && self@.candidates[w as int].open(),
                    None => best(self@.candidates, c as int) is None,
                },
            decreases self.candidates.len() - c,
        {
            let candidate = self.candidates[c];
            if candidate.backed && !candidate.elected {
                match found {
                    None => {
                        found = Some(c);
                    },
                    Some(w) => {
                        let held = self.candidates[w];
                        if candidate.score < held.score || (candidate.score == held.score
                            && candidate.who < held.who) {
                            found = Some(c);
                        }
                    },
                }
            }
            c += 1;
        }
        found
    }

    /// Records that the candidate at place `w` has won the round.
    fn win(&mut self, w: usize)
        requires
            old(self)@.wf(),
            w < old(self)@.candidates.len(),
        ensures
            final(self)@ == old(self)@.won(w as int),
            final(self)@.wf(),
    {
        let ghost before = self@;
        let old = self.candidates[w];
        let score = old.score;
        self.candidates[w] = Candidate {
            who: old.who,
            approval_stake: old.approval_stake,
            score: old.score,
            backed: old.backed,
            elected: true,
        };
        let mut i: usize = 0;
        while i < self.edges.len()
            invariant
                i <= self.edges.len(),
                before.wf(),
                w < before.candidates.len(),
                score == before.candidates[w as int].score,
                self@.voters == before.voters,
                self@.candidates == before.won(w as int).candidates,
                self@.elected == before.elected,
                self@.edges.len() == before.edges.len(),
                forall|k: int| 0 <= k < i ==> #[trigger] self@.edges[k] == before.won_edge(w as int, score, k),
                forall|k: int| i <= k < self@.edges.len() ==> #[trigger] self@.edges[k] == before.edges[k],
            decreases self.edges.len() - i,
        {
            let e = self.edges[i];
            assert(before.edges[i as int].voter < before.voters.len());
            if e.candidate == w {
                let voter = self.voters[e.voter];
                self.edges[i] = Edge {
                    voter: e.voter,
                    candidate: e.candidate,
                    load: score.saturating_sub(voter.load),
                };
            }
            i += 1;
        }
        let mut j: usize = 0;
        while j < self.edges.len()
            invariant
                j <= self.edges.len(),
                before.wf(),
                w < before.candidates.len(),
                score == before.candidates[w as int].score,
                self@.candidates == before.won(w as int).candidates,
                self@.elected == before.elected,
                self@.edges.len() == before.edges.len(),
                forall|k: int|
                    0 <= k < self@.edges.len() ==> #[trigger] self@.edges[k] == before.won_edge(
                        w as int,
                        score,
                        k,
                    ),
                self@.voters.len() == before.voters.len(),
                forall|v: int|
                    0 <= v < self@.voters.len() ==> #[trigger] self@.voters[v] == if joined(
                        before.edges,
                        v,
                        w as int,
                        j as int,
                    ) {
                        Voter { load: score, ..before.voters[v] }
                    } else {
                        before.voters[v]
                    },
            decreases self.edges.len() - j,
        {
            let e = self.edges[j];
            assert(before.edges[j as int].voter < before.voters.len());
            assert(e.voter == before.edges[j as int].voter && e.candidate == before.edges[j as int].candidate);
            if e.candidate == w {
                let voter = self.voters[e.voter];
                self.voters[e.voter] = Voter {
                    who: voter.who,
                    budget: voter.budget,
                    load: score,
                    nominator: voter.nominator,
                };
            }
            j += 1;
        }
        self.elected.push(w);
        proof {
            assert(self@.edges =~= before.won(w as int).edges);
            assert(self@.voters =~= before.won(w as int).voters);
            let after = self@;
            assert forall|k: int| 0 <= k < after.edges.len() implies (#[trigger] after.edges[k]).voter
                < after.voters.len() && after.edges[k].candidate < after.candidates.len() by {
                assert(before.edges[k].voter < before.voters.len());
            }
            assert forall|k: int| 0 <= k < after.elected.len() implies (#[trigger] after.elected[k])
                < after.candidates.len() by {
                if k < before.elected.len() {
                    assert(before.elected[k] < before.candidates.len());
                }
            }
            assert forall|k: int| 0 <= k < after.candidates.len() implies (
            #[trigger] after.candidates[k]).approval_stake > 0 by {
                assert(before.candidates[k].approval_stake > 0);
            }
        }
    }

    /// Runs one more round, and says whether a candidate won it.
    pub fn round(&mut self) -> (r: bool)
        requires
            old(self)@.wf(),
        ensures
            final(self)@ == old(self)@.round(),
            final(self)@.wf(),
            r == (best(old(self)@.scored().candidates, old(self)@.candidates.len() as int) is Some),
            final(self)@.elected.len() == old(self)@.elected.len() + if r { 1int } else { 0int },
    {
        self.score();
        match self.best() {
            Some(w) => {
                self.win(w);
                true
            },
            None => false,
        }
    }

    /// The candidates.
    pub fn candidates(&self) -> (r: &Vec<Candidate>)
        ensures
            r@ == self@.candidates,
    {
        &self.candidates
    }

    /// The voters: first the candidates, then the nominators.
    pub fn voters(&self) -> (r: &Vec<Voter>)
        ensures
            r@ == self@.voters,
    {
        &self.voters
    }

    /// The votes.
    pub fn edges(&self) -> (r: &Vec<Edge>)
        ensures
            r@ == self@.edges,
    {
        &self.edges
    }

    /// The places of the winners among the candidates, in the order of the
    /// rounds.
    pub fn elected(&self) -> (r: &Vec<usize>)
        ensures
            r@ == self@.elected,
    {
        &self.elected
    }

    /// How many candidates are backed.
    fn backed(&self) -> (n: usize)
        ensures
            n as int == backed_count(self@.candidates, self@.candidates.len() as int),
    {
        let mut n: usize = 0;
        let mut c: usize = 0;
        while c < self.candidates.len()
            invariant
                c <= self.candidates.len(),
                n <= c,
                n as int == backed_count(self@.candidates, c as int),
            decreases self.candidates.len() - c,
        {
            if self.candidates[c].backed {
                n += 1;
            }
            c += 1;
        }
        n
    }

    /// The elected candidates that the voter at place `v` votes for, each
    /// with the load of the vote.
    fn support(&self, v: usize) -> (r: Vec<(AccountId, ExtendedBalance)>)
        requires
            self@.wf(),
        ensures
            r@ == self@.support_upto(v as int, self@.edges.len() as int),
    {
        let mut out: Vec<(AccountId, ExtendedBalance)> = Vec::new();
        let mut i: usize = 0;
        while i < self.edges.len()
            invariant
                i <= self.edges.len(),
                self@.wf(),
                out@ == self@.support_upto(v as int, i as int),
            decreases self.edges.len() - i,
        {
            let e = self.edges[i];
            assert(self@.edges[i as int].candidate < self@.candidates.len());
            if e.voter == v && self.candidates[e.candidate].elected {
                out.push((self.candidates[e.candidate].who, e.load));
            }
            i += 1;
        }
        out
    }

    /// The assignments of the nominators that voted for an elected
    /// candidate.
    pub fn assignments(&self) -> (r: Vec<Assignment>)
        requires
            self@.wf(),
        ensures
            assignments_view(r@) == self@.assignments_upto(self@.voters.len() as int),
            forall|i: int|
                0 <= i < r@.len() ==> (#[trigger] r@[i]).shares@.len() > 0 && shares_sum(r@[i].shares@)
                    == ACCURACY && self@.has_nominator(r@[i].who),
            self@.settled() ==> forall|i: int, k: int|
                0 <= i < r@.len() && 0 <= k < r@[i].shares@.len() ==> self@.elected_stashes().contains(
                    (#[trigger] r@[i].shares@[k]).0,
                ),
            forall|i: int, k: int|
                0 <= i < r@.len() && 0 <= k < r@[i].shares@.len() ==> self@.votes(
                    r@[i].who,
                    (#[trigger] r@[i].shares@[k]).0,
                ),
    {
        let mut out: Vec<Assignment> = Vec::new();
        let mut v: usize = 0;
        while v < self.voters.len()
            invariant
                v <= self.voters.len(),
                self@.wf(),
                assignments_view(out@) == self@.assignments_upto(v as int),
                forall|i: int|
                    0 <= i < out@.len() ==> (#[trigger] out@[i]).shares@.len() > 0 && shares_sum(
                        out@[i].shares@,
                    ) == ACCURACY && self@.has_nominator(out@[i].who),
                self@.settled() ==> forall|i: int, k: int|
                    0 <= i < out@.len() && 0 <= k < out@[i].shares@.len()
                        ==> self@.elected_stashes().contains((#[trigger] out@[i].shares@[k]).0),
                forall|i: int, k: int|
                    0 <= i < out@.len() && 0 <= k < out@[i].shares@.len() ==> self@.votes(
                        out@[i].who,
                        (#[trigger] out@[i].shares@[k]).0,
                    ),
            decreases self.voters.len() - v,
        {
            let voter = self.voters[v];
            let support = self.support(v);
            if voter.nominator && support.len() > 0 {
                let ghost before = out@;
                let shares = split_stake(&support);
                out.push(Assignment { who: voter.who, shares });
                proof {
                    assert(assignments_view(out@) =~= assignments_view(before).push(out@.last()@));
                    assert(self@.voters[v as int].nominator && self@.voters[v as int].who == voter.who);
                    assert(self@.has_nominator(voter.who));
                    assert forall|i: int| 0 <= i < out@.len() implies (#[trigger] out@[i]).shares@.len() > 0
                        && shares_sum(out@[i].shares@) == ACCURACY && self@.has_nominator(out@[i].who) by {
                        if i < before.len() {
                            assert(out@[i] == before[i]);
                        }
                    }
                    lemma_support_voted(self@, v as int, self@.edges.len() as int);
                    assert forall|i: int, k: int|
                        0 <= i < out@.len() && 0 <= k < out@[i].shares@.len() implies self@.votes(
                        out@[i].who,
                        (#[trigger] out@[i].shares@[k]).0,
                    ) by {
                        if i < before.len() {
                            assert(out@[i] == before[i]);
                        } else {
                            assert(out@[i].shares@[k].0 == support@[k].0);
                        }
                    }
                    if self@.settled() {
                        lemma_support_elected(self@, v as int, self@.edges.len() as int);
                        assert forall|i: int, k: int|
                            0 <= i < out@.len() && 0 <= k < out@[i].shares@.len()
                            implies self@.elected_stashes().contains((#[trigger] out@[i].shares@[k]).0) by {
                            if i < before.len() {
                                assert(out@[i] == before[i]);
                            } else {
                                assert(out@[i].shares@[k].0 == support@[k].0);
                            }
                        }
                    }
                }
            }
            v += 1;
        }
        out
    }

    /// The stashes of the winners, in the order of the rounds.
    pub fn elected_stashes(&self) -> (r: Vec<AccountId>)
        requires
            self@.wf(),
        ensures
            r@ == self@.elected_stashes(),
    {
        let mut out: Vec<AccountId> = Vec::new();
        let mut i: usize = 0;
        while i < self.elected.len()
            invariant
                i <= self.elected.len(),
                self@.wf(),
                out@.len() == i,
                forall|k: int| 0 <= k < i ==> #[trigger] out@[k] == self@.elected_stashes()[k],
            decreases self.elected.len() - i,
        {
            assert(self@.elected[i as int] < self@.candidates.len());
            out.push(self.candidates[self.elected[i]].who);
            i += 1;
        }
        assert(out@ =~= self@.elected_stashes());
        out
    }
}

/// The ratios, in parts of `ACCURACY`, by which a stake is split when the
/// loads of its votes are `shares`.
pub fn split_stake(shares: &Vec<(AccountId, ExtendedBalance)>) -> (r: Vec<(AccountId, ExtendedBalance)>)
    requires
        shares@.len() > 0,
    ensures
        r@ == split(shares@),
        shares_sum(r@) == ACCURACY,
        r@.len() == shares@.len(),
        forall|i: int| 0 <= i < r@.len() ==> (#[trigger] r@[i]).0 == shares@[i].0,
{
    let mut sum: ExtendedBalance = 0;
    let mut i: usize = 0;
    while i < shares.len()
        invariant
            i <= shares.len(),
            sum == scaled_sum(shares@, i as int),
        decreases shares.len() - i,
    {
        sum = sum.saturating_add(shares[i].1 / SCALE_FACTOR);
        i += 1;
    }
    let mut ratios: Vec<(AccountId, ExtendedBalance)> = Vec::new();
    let mut left: ExtendedBalance = ACCURACY;
    let mut j: usize = 0;
    while j < shares.len()
        invariant
            j <= shares.len(),
            ratios@ == ratios_upto(shares@, sum, j as int),
            left == ACCURACY - shares_sum(ratios@),
            left <= ACCURACY,
            ratios@.len() == j,
        decreases shares.len() - j,
    {
        let share = shares[j];
        let raw = if sum == 0 {
            0
        } else {
            (ACCURACY * (share.1 / SCALE_FACTOR)) / sum
        };
        let ratio = if raw <= left { raw } else { left };
        let ghost before = ratios@;
        ratios.push((share.0, ratio));
        assert(ratios@.drop_last() =~= before);
        left = left - ratio;
        j += 1;
    }
    let k = shares.len() as ExtendedBalance;
    let each = left / k;
    let more = left % k;
    let mut out: Vec<(AccountId, ExtendedBalance)> = Vec::new();
    let ghost capped = ratios@;
    let mut n: usize = 0;
    while n < ratios.len()
        invariant
            n <= ratios.len(),
            ratios@ == capped,
            capped.len() == shares@.len(),
            k == capped.len(),
            k > 0,
            left == ACCURACY - shares_sum(capped),
            left <= ACCURACY,
            0 <= shares_sum(capped.take(n as int)) <= shares_sum(capped),
            each == left / k,
            more == left % k,
            out@.len() == n,
            forall|i: int| 0 <= i < n ==> #[trigger] out@[i] == topped_up(capped)[i],
            shares_sum(out@) == shares_sum(capped.take(n as int)) + n * each + if n <= more {
                n as int
            } else {
                more as int
            },
        decreases ratios.len() - n,
    {
        let ratio = ratios[n];
        proof {
            lemma_shares_sum_take(capped, n as int + 1);
            assert(capped.take(n as int + 1).drop_last() =~= capped.take(n as int));
            assert(n * each + each == (n + 1) * each) by (nonlinear_arith);
        }
        let extra: ExtendedBalance = if (n as ExtendedBalance) < more { 1 } else { 0 };
        let ghost before = out@;
        out.push((ratio.0, ratio.1 + each + extra));
        assert(out@.drop_last() =~= before);
        n += 1;
    }
    proof {
        assert(capped.take(capped.len() as int) =~= capped);
        assert(out@ =~= topped_up(capped));
        assert(k * each + more == left) by (nonlinear_arith)
            requires
                k > 0,
                each == left / k,
                more == left % k,
        ;
        assert(more < k);
        assert forall|i: int| 0 <= i < out@.len() implies (#[trigger] out@[i]).0 == shares@[i].0 by {
            lemma_ratios_names(shares@, sum, shares@.len() as int, i);
        }
    }
    out
}

/// Runs an election for `validator_count` places among `validators`, with
/// the votes of `nominations`. Gives the stashes of the winners, in the order
/// in which they won, and the assignments of the nominators; or nothing where
/// fewer won than `minimum_validator_count`, or nobody.
///
/// As many win as there are places, or validators that can be elected:
/// where no stash stands twice, these are the validators with stake that a
/// nomination with stake names. Every winner is one of them, and none wins
/// twice. Every assignment is that of a nominator with stake, to winners
/// among its own targets, in ratios that add up to `ACCURACY`.
pub fn elect(
    validator_count: usize,
    minimum_validator_count: usize,
    validators: &Vec<Stake>,
    nominations: &Vec<Nomination>,
) -> (r: Option<(Vec<AccountId>, Vec<Assignment>)>)
    ensures
        match r {
            Some((stashes, assignments)) => election(
                validator_count,
                minimum_validator_count,
                validators@,
                nominations_view(nominations@),
            ) == Some((stashes@, assignments_view(assignments@))),
            None => election(
                validator_count,
                minimum_validator_count,
                validators@,
                nominations_view(nominations@),
            ) is None,
        },
        r is None <==> (seats(validator_count, validators@, nominations_view(nominations@))
            < minimum_validator_count || seats(validator_count, validators@, nominations_view(nominations@))
            < 1),
        distinct(validators@) ==> eligible(validators@, nominations_view(nominations@)) == eligible_upto(
            validators@,
            nominations_view(nominations@),
            validators@.len() as int,
        ),
        r is Some && distinct(validators@) ==> r.unwrap().0@.no_duplicates(),
        r is Some ==> {
            let (stashes, assignments) = r.unwrap();
            {
                &&& stashes@.len() == seats(validator_count, validators@, nominations_view(nominations@))
                &&& stashes@.len() <= validator_count
                &&& forall|i: int|
                    0 <= i < stashes@.len() ==> stands(validators@, #[trigger] stashes@[i]) && is_backed(
                        nominations_view(nominations@),
                        stashes@[i],
                    )
                &&& forall|i: int|
                    0 <= i < assignments@.len() ==> nominates(
                        nominations_view(nominations@),
                        (#[trigger] assignments@[i]).who,
                    ) && assignments@[i].shares@.len() > 0 && shares_sum(assignments@[i].shares@) == ACCURACY
                &&& forall|i: int, k: int|
                    0 <= i < assignments@.len() && 0 <= k < assignments@[i].shares@.len()
                        ==> stashes@.contains((#[trigger] assignments@[i].shares@[k]).0) && names_target(
                        nominations_view(nominations@),
                        assignments@[i].who,
                        assignments@[i].shares@[k].0,
                    )
            }
        },
{
    let mut tally = Tally::new(validators, nominations);
    let backed = tally.backed();
    let rounds = if validator_count <= backed { validator_count } else { backed };
    let ghost start = tally@;
    let ghost views = nominations_view(nominations@);
    proof {
        lemma_open_count_start(start.candidates, start.candidates.len() as int);
    }
    let mut round: usize = 0;
    while round < rounds
        invariant
            round <= rounds,
            rounds <= backed,
            tally@ == start.rounds(round as int),
            tally@.wf(),
            tally@.settled(),
            same_registry(start, tally@),
            tally@.elected.len() == round,
            tally@.open() == backed - round,
        decreases rounds - round,
    {
        let ghost before = tally@;
        let candidates = tally.candidates.len();
        proof {
            assert(before.candidates.len() == candidates);
            lemma_round(before);
        }
        tally.round();
        proof {
            lemma_same_registry_chain(start, before, tally@);
        }
        round += 1;
    }
    proof {
        lemma_from_registry(start, tally@, validators@, views);
        lemma_votes_from_registry(start, tally@, views);
        lemma_winners(tally@, validators@, views);
    }
    if tally.elected.len() < minimum_validator_count || tally.elected.len() < 1 {
        None
    } else {
        let stashes = tally.elected_stashes();
        let assignments = tally.assignments();
        proof {
            if distinct(validators@) {
                assert forall|a: int, b: int| 0 <= a < stashes@.len() && 0 <= b < stashes@.len() && a
                    != b implies stashes@[a] != stashes@[b] by {
                    let x = tally@.elected[a] as int;
                    let y = tally@.elected[b] as int;
                    assert(x != y);
                    assert(x < tally@.candidates.len() && y < tally@.candidates.len());
                    assert(start.candidates[x].who == tally@.candidates[x].who);
                    assert(start.candidates[y].who == tally@.candidates[y].who);
                    if x < y {
                        assert(start.candidates[x].who != start.candidates[y].who);
                    } else {
                        assert(start.candidates[y].who != start.candidates[x].who);
                    }
                }
            }
            assert forall|i: int, k: int|
                0 <= i < assignments@.len() && 0 <= k < assignments@[i].shares@.len() implies names_target(
                views,
                assignments@[i].who,
                (#[trigger] assignments@[i].shares@[k]).0,
            ) by {
                let who = assignments@[i].who;
                let target = assignments@[i].shares@[k].0;
                assert(tally@.votes(who, target));
                let e = choose|e: int|
                    0 <= e < tally@.edges.len() && tally@.voters[(
                    #[trigger] tally@.edges[e]).voter as int].nominator
                        && tally@.voters[tally@.edges[e].voter as int].who == who
                        && tally@.candidates[tally@.edges[e].candidate as int].who == target;
                assert(names_target(
                    views,
                    tally@.voters[tally@.edges[e].voter as int].who,
                    tally@.candidates[tally@.edges[e].candidate as int].who,
                ));
            }
            assert forall|i: int| 0 <= i < assignments@.len() implies nominates(
                views,
                (#[trigger] assignments@[i]).who,
            ) by {
                let who = assignments@[i].who;
                assert(tally@.has_nominator(who));
                let v = choose|v: int|
                    0 <= v < tally@.voters.len() && (#[trigger] tally@.voters[v]).nominator
                        && tally@.voters[v].who == who;
                assert(nominates(views, tally@.voters[v].who));
            }
        }
        Some((stashes, assignments))
    }
}

/// What the first shares hold is no more than what all hold.
pub proof fn lemma_shares_sum_take(shares: Shares, n: int)
    requires
        0 <= n <= shares.len(),
    ensures
        0 <= shares_sum(shares.take(n)) <= shares_sum(shares),
    decreases shares.len() - n,
{
    if n == shares.len() {
        assert(shares.take(n) =~= shares);
        lemma_shares_sum_nonnegative(shares);
    } else {
        lemma_shares_sum_take(shares, n + 1);
        assert(shares.take(n + 1).drop_last() =~= shares.take(n));
        lemma_shares_sum_nonnegative(shares.take(n));
    }
}

/// Shares hold nothing negative.
pub proof fn lemma_shares_sum_nonnegative(shares: Shares)
    ensures
        0 <= shares_sum(shares),
    decreases shares.len(),
{
    if shares.len() > 0 {
        lemma_shares_sum_nonnegative(shares.drop_last());
    }
}

/// The ratios go to the candidates of the shares, in their order.
pub proof fn lemma_ratios_names(shares: Shares, sum: ExtendedBalance, n: int, i: int)
    requires
        0 <= i < n <= shares.len(),
    ensures
        ratios_upto(shares, sum, n).len() == n,
        ratios_upto(shares, sum, n)[i].0 == shares[i].0,
    decreases n,
{
    lemma_ratios_len(shares, sum, n - 1);
    if i < n - 1 {
        lemma_ratios_names(shares, sum, n - 1, i);
    }
}

/// There is a ratio for each share.
pub proof fn lemma_ratios_len(shares: Shares, sum: ExtendedBalance, n: int)
    requires
        0 <= n <= shares.len(),
    ensures
        ratios_upto(shares, sum, n).len() == n,
    decreases n,
{
    if n > 0 {
        lemma_ratios_len(shares, sum, n - 1);
    }
}

/// The empty tally is what holds before any validator is made a candidate.
proof fn lemma_seated_start(validators: Seq<Stake>)
    ensures
        TallyView::empty().seated(validators, 0),
{
    reveal(TallyView::seated);
}

/// Once all validators have been made candidates, no vote has been counted.
proof fn lemma_polled_start(start: TallyView, validators: Seq<Stake>, nominations: Seq<NominationView>)
    requires
        start.seated(validators, validators.len() as int),
    ensures
        start.polled(start, validators, nominations, 0),
{
    reveal(TallyView::seated);
    reveal(TallyView::polled);
    assert forall|c: int| 0 <= c < start.candidates.len() implies (#[trigger] start.candidates[c]).backed
        == backs(nominations, start.candidates[c].who, 0) by {}
    assert forall|i: int|
        0 <= i < start.edges.len() && start.voters[(
        #[trigger] start.edges[i]).voter as int].nominator implies names_target(
        nominations,
        start.voters[start.edges[i].voter as int].who,
        start.candidates[start.edges[i].candidate as int].who,
    ) by {
        assert(start.edges[i].voter < start.voters.len());
    }
}

/// Once all votes have been counted, the tally is ready for the rounds: it
/// comes from the registry, nobody is elected, and where no stash stands
/// twice, the backed candidates are the validators that can be elected.
proof fn lemma_polled_end(
    t: TallyView,
    start: TallyView,
    validators: Seq<Stake>,
    nominations: Seq<NominationView>,
)
    requires
        start.seated(validators, validators.len() as int),
        t.polled(start, validators, nominations, nominations.len() as int),
    ensures
        t == TallyView::initial(validators, nominations),
        t.wf(),
        t.elected.len() == 0,
        t.settled(),
        t.from_registry(validators, nominations),
        t.votes_from_registry(nominations),
        forall|c: int| 0 <= c < t.candidates.len() ==> !(#[trigger] t.candidates[c]).elected,
        distinct(validators) ==> backed_count(t.candidates, t.candidates.len() as int) == eligible_upto(
            validators,
            nominations,
            validators.len() as int,
        ),
        distinct(validators) ==> distinct_candidates(t.candidates),
{
    reveal(TallyView::seated);
    reveal(TallyView::polled);
    if distinct(validators) {
        let n = validators.len() as int;
        assert(t.candidates.len() == stashes_of(t.candidates).len());
        assert(start.candidates.len() == stashes_of(start.candidates).len());
        assert forall|k: int| 0 <= k < n && (#[trigger] validators[k]).stake > 0 implies 0 <= stake_count(
            validators,
            k,
        ) < t.candidates.len() && t.candidates[stake_count(validators, k)].who == validators[k].who by {
            let c = stake_count(validators, k);
            assert(start.candidates[c].who == validators[k].who);
            assert(stashes_of(t.candidates)[c] == stashes_of(start.candidates)[c]);
        }
        assert forall|c: int| 0 <= c < t.candidates.len() implies (#[trigger] t.candidates[c]).backed
            == is_backed(nominations, t.candidates[c].who) by {
            lemma_backs(nominations, t.candidates[c].who, nominations.len() as int);
        }
        lemma_eligible_count(t.candidates, validators, nominations, n);
    }
}

/// A well-formed tally stays so when a candidate with stake, a voter and
/// an edge between the two are added to it.
proof fn lemma_wf_grown(before: TallyView, after: TallyView)
    requires
        before.wf(),
        after.elected == before.elected,
        after.candidates.len() == before.candidates.len() + 1,
        after.candidates.drop_last() == before.candidates,
        after.candidates.last().approval_stake > 0,
        after.voters.len() == before.voters.len() + 1,
        after.edges.len() == before.edges.len() + 1,
        after.edges.drop_last() == before.edges,
        after.edges.last().voter == before.voters.len(),
        after.edges.last().candidate == before.candidates.len(),
    ensures
        after.wf(),
{
    assert forall|i: int| 0 <= i < after.edges.len() implies (#[trigger] after.edges[i]).voter
        < after.voters.len() && after.edges[i].candidate < after.candidates.len() by {
        if i < before.edges.len() {
            assert(after.edges[i] == after.edges.drop_last()[i]);
            assert(before.edges[i].voter < before.voters.len());
        }
    }
    assert forall|i: int| 0 <= i < after.elected.len() implies (#[trigger] after.elected[i])
        < after.candidates.len() by {
        assert(before.elected[i] < before.candidates.len());
    }
    assert forall|i: int| 0 <= i < after.candidates.len() implies (
    #[trigger] after.candidates[i]).approval_stake > 0 by {
        if i < before.candidates.len() {
            assert(after.candidates[i] == after.candidates.drop_last()[i]);
            assert(before.candidates[i].approval_stake > 0);
        }
    }
}

/// Where the candidate at place `i` is the first to hold `who`, it is the
/// place of `who` among any number of candidates beyond it.
pub proof fn lemma_place_found(candidates: Seq<Candidate>, who: AccountId, i: int, n: int)
    requires
        0 <= i < n <= candidates.len(),
        place_of(candidates, who, i) == i,
        candidates[i].who == who,
    ensures
        place_of(candidates, who, n) == i,
    decreases n - i,
{
    if n > i + 1 {
        lemma_place_found(candidates, who, i, n - 1);
    }
}

} // verus!
