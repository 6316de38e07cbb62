//! The turn of sessions, eras and epochs: the payout of an era's reward, the
//! election of the next validators, and the exposures that the election
//! leaves.

use vstd::prelude::*;
use crate::equalize::{equalize, equalized};
use crate::exposure::{Exposure, ExposureView, IndividualExposure};
use crate::kton;
use crate::module::{Event, Module, State, accrued, next_epoch, next_era};
use crate::phragmen::{ACCURACY, Assignment, AssignmentView, Shares, assignments_view, elect, election};
use crate::phragmen::{sat_mul, saturating_product};
use crate::primitives::{AccountId, Balance, ExtendedBalance, SessionIndex};
use crate::store::StorageMap;

verus! {

/// The difference between two backings that equalization leaves alone.
pub const EQUALIZE_TOLERANCE: Balance = 0;

/// The number of passes of an equalization.
pub const EQUALIZE_ITERATIONS: usize = 2;

/// What the end of a session brought.
pub struct SessionOutcome {
    /// The controllers of the validators of the next era, where an era ended
    /// and an election was held with success.
    pub validators: Option<Vec<AccountId>>,
    /// The reward of each validator of the era that ended, where a reward
    /// was paid.
    pub event: Option<Event>,
    /// By how much the funds grew by the payments, all together.
    pub minted: Balance,
}

/// What of `stake` falls to a vote with `ratio` parts of `ACCURACY`, rounded
/// down.
pub open spec fn stake_share(ratio: ExtendedBalance, stake: Balance) -> int {
    (sat_mul(ratio, stake as ExtendedBalance) / ACCURACY) as int
}

/// The exposure `e` with `amount` more from `nominator` behind it, as far as
/// the total can hold it.
pub open spec fn backed_by(e: ExposureView, nominator: AccountId, amount: int) -> ExposureView {
    let value = if amount <= u64::MAX - e.total {
        amount as Balance
    } else {
        (u64::MAX - e.total) as Balance
    };
    ExposureView {
        total: (e.total + value) as Balance,
        own: e.own,
        others: e.others.push(IndividualExposure { who: nominator, value }),
    }
}

/// The exposures with the votes of `nominator`, which has `stake`, by the
/// first `n` of `shares`: each share goes to the exposure of its candidate.
pub open spec fn with_shares(
    exposures: Map<AccountId, ExposureView>,
    nominator: AccountId,
    stake: Balance,
    shares: Shares,
    n: int,
) -> Map<AccountId, ExposureView>
    decreases n,
{
    if n <= 0 {
        exposures
    } else {
        let before = with_shares(exposures, nominator, stake, shares, n - 1);
        let candidate = shares[n - 1].0;
        if before.contains_key(candidate) {
            before.insert(
                candidate,
                backed_by(before[candidate], nominator, stake_share(shares[n - 1].1, stake)),
            )
        } else {
            before
        }
    }
}

impl State {
    /// The exposures of the first `n` of `elected` before anybody backs
    /// them: each with what it has at stake itself.
    pub open spec fn own_exposures(self, elected: Seq<AccountId>, n: int) -> Map<AccountId, ExposureView>
        decreases n,
    {
        if n <= 0 {
            Map::empty()
        } else {
            self.own_exposures(elected, n - 1).insert(
                elected[n - 1],
                ExposureView {
                    total: self.slashable_balance_of(elected[n - 1]),
                    own: self.slashable_balance_of(elected[n - 1]),
                    others: Seq::empty(),
                },
            )
        }
    }

    /// The exposures with the first `n` of `assignments` behind them.
    pub open spec fn with_assignments(
        self,
        exposures: Map<AccountId, ExposureView>,
        assignments: Seq<AssignmentView>,
        n: int,
    ) -> Map<AccountId, ExposureView>
        decreases n,
    {
        if n <= 0 {
            exposures
        } else {
            with_shares(
                self.with_assignments(exposures, assignments, n - 1),
                assignments[n - 1].who,
                self.slashable_balance_of(assignments[n - 1].who),
                assignments[n - 1].shares,
                assignments[n - 1].shares.len() as int,
            )
        }
    }

    /// The exposures that an election leaves in which `elected` won and the
    /// nominators were assigned as `assignments` say.
    pub open spec fn exposures(self, elected: Seq<AccountId>, assignments: Seq<AssignmentView>) -> Map<
        AccountId,
        ExposureView,
    > {
        self.with_assignments(
            self.own_exposures(elected, elected.len() as int),
            assignments,
            assignments.len() as int,
        )
    }

    /// The exposures that are put in place after an election in which
    /// `elected` won and the nominators were assigned as `assignments` say:
    /// those that the election leaves, equalized in two passes where the
    /// module equalizes.
    pub open spec fn settled_exposures(self, elected: Seq<AccountId>, assignments: Seq<AssignmentView>) -> Map<
        AccountId,
        ExposureView,
    > {
        if self.equalize {
            equalized(
                self.exposures(elected, assignments),
                assignments,
                EQUALIZE_TOLERANCE,
                EQUALIZE_ITERATIONS as int,
            )
        } else {
            self.exposures(elected, assignments)
        }
    }

    /// How many validators can be elected now: those with stake that a
    /// nominator with stake names.
    pub open spec fn eligible(self) -> int {
        crate::invariants::eligible_upto(
            self.candidates(),
            self.nominations(),
            self.candidates().len() as int,
        )
    }

    /// How many validators an election held now elects: as many as are
    /// wanted, or as can be elected.
    pub open spec fn seats(self) -> int {
        if self.validator_count <= self.eligible() {
            self.validator_count as int
        } else {
            self.eligible()
        }
    }

    /// The outcome of an election held now.
    pub open spec fn election(self) -> Option<(Seq<AccountId>, Seq<AssignmentView>)> {
        election(
            self.validator_count as usize,
            if self.minimum_validator_count >= 1 {
                self.minimum_validator_count as usize
            } else {
                1
            },
            self.candidates(),
            self.nominations(),
        )
    }

    /// The state after an election was held: where it failed, as before;
    /// else with the winners and their exposures in place, the slash counts
    /// of those elected before decayed, and a slot stake that the predicate
    /// `is_least_total` describes.
    pub open spec fn elected(self, slot_stake: Balance) -> State {
        match self.election() {
            Some((stashes, assignments)) => State {
                stakers: self.settled_exposures(stashes, assignments),
                slash_count: self.decayed(self.current_elected, self.current_elected.len() as int),
                current_elected: stashes,
                slot_stake,
                ..self
            },
            None => self,
        }
    }
}

impl State {
    /// The currency after the first `n` of `elected` and their backers were
    /// paid out of a reward of `reward` each, and by how much the funds grew.
    pub open spec fn rewarded_all(
        self,
        currency: kton::State,
        elected: Seq<AccountId>,
        reward: Balance,
        n: int,
    ) -> (kton::State, int)
        decreases n,
    {
        if n <= 0 {
            (currency, 0)
        } else {
            let before = self.rewarded_all(currency, elected, reward, n - 1);
            let paid = self.rewarded(before.0, elected[n - 1], reward);
            (paid.0, before.1 + paid.1)
        }
    }

    /// Whether the session before the one with index `session_index` is the
    /// last of its era: the index is a multiple of the sessions of an era,
    /// or a new era is forced.
    pub open spec fn era_ends(self, session_index: SessionIndex) -> bool {
        self.forcing_new_era || session_index % self.sessions_per_era == 0
    }

    /// The state once a session has ended: its reward has gone to that of
    /// the era, and no new era is forced any more.
    pub open spec fn session_ended(self) -> State {
        State {
            current_era_reward: accrued(self.current_era_reward, self.current_session_reward),
            forcing_new_era: false,
            ..self
        }
    }

    /// Whether a reward is paid at the end of the era: there is a reward,
    /// and there are validators to pay.
    pub open spec fn pays(self) -> bool {
        self.current_era_reward != 0 && self.current_elected.len() > 0
    }

    /// What each validator is rewarded with at the end of the era: the
    /// reward of the era divided evenly, the remainder dropped.
    pub open spec fn reward_per_validator(self) -> Balance {
        (self.current_era_reward as int / self.current_elected.len() as int) as Balance
    }

    /// The state once the era has turned, before the election: the reward of
    /// the era starts anew where it was paid; where the era that ends is a
    /// multiple of the eras of an epoch, a new epoch begins, with
    /// `next_era_reward` as the reward budget where there is one; and one
    /// more era is counted.
    pub open spec fn turned(self, next_era_reward: Option<Balance>) -> State {
        let paid = if self.pays() {
            State { current_era_reward: 0, ..self }
        } else {
            self
        };
        let begun = if self.current_era % self.eras_per_epoch == 0 {
            State {
                epoch_index: next_epoch(self.epoch_index),
                current_era_total_reward: match next_era_reward {
                    Some(budget) => budget,
                    None => self.current_era_total_reward,
                },
                ..paid
            }
        } else {
            paid
        };
        State { current_era: next_era(self.current_era), ..begun }
    }
}

/// What of `stake` falls to the first `n` of `shares`, all together.
pub open spec fn allocated(shares: Shares, stake: Balance, n: int) -> int
    decreases n,
{
    if n <= 0 {
        0
    } else {
        allocated(shares, stake, n - 1) + stake_share(shares[n - 1].1, stake)
    }
}

/// No ratio is more than all of them together.
pub proof fn lemma_ratio_bounded(shares: Shares, i: int)
    requires
        0 <= i < shares.len(),
    ensures
        shares[i].1 <= crate::phragmen::shares_sum(shares),
    decreases shares.len(),
{
    crate::phragmen::lemma_shares_sum_nonnegative(shares.drop_last());
    if i < shares.len() - 1 {
        lemma_ratio_bounded(shares.drop_last(), i);
    }
}

/// What falls to the first votes of a nominator is no more than their part
/// of its stake.
pub proof fn lemma_allocated_bound(shares: Shares, stake: Balance, n: int)
    requires
        0 <= n <= shares.len(),
        crate::phragmen::shares_sum(shares) <= ACCURACY,
    ensures
        0 <= allocated(shares, stake, n),
        allocated(shares, stake, n) * ACCURACY <= crate::phragmen::shares_sum(shares.take(n)) * stake,
    decreases n,
{
    if n > 0 {
        lemma_allocated_bound(shares, stake, n - 1);
        lemma_ratio_bounded(shares, n - 1);
        assert(shares.take(n).drop_last() =~= shares.take(n - 1));
        let ratio = shares[n - 1].1;
        let a = allocated(shares, stake, n - 1);
        let sum = crate::phragmen::shares_sum(shares.take(n - 1));
        assert(ratio * stake <= 4_294_967_296 * 0xffff_ffff_ffff_ffff) by (nonlinear_arith)
            requires
                0 <= ratio <= 4_294_967_296,
                0 <= stake <= 0xffff_ffff_ffff_ffff,
        ;
        let q = stake_share(ratio, stake);
        assert(q == (ratio * stake) / 4_294_967_296);
        assert(0 <= q && q * 4_294_967_296 <= ratio * stake) by (nonlinear_arith)
            requires
                q == (ratio * stake) / 4_294_967_296,
                0 <= ratio,
                0 <= stake,
        ;
        assert((a + q) * 4_294_967_296 <= (sum + ratio) * stake) by (nonlinear_arith)
            requires
                a * 4_294_967_296 <= sum * stake,
                q * 4_294_967_296 <= ratio * stake,
        ;
    } else {
        assert(shares.take(0) =~= Shares::empty());
        assert(0 * 4_294_967_296 == 0 && 0 * stake == 0) by (nonlinear_arith);
    }
}

/// A nominator is never assigned more than its stake: the ratios of its
/// votes add up to no more than one whole, and each share is rounded down.
pub proof fn lemma_allocation_within_stake(shares: Shares, stake: Balance)
    requires
        crate::phragmen::shares_sum(shares) <= ACCURACY,
    ensures
        0 <= allocated(shares, stake, shares.len() as int) <= stake,
{
    lemma_allocated_bound(shares, stake, shares.len() as int);
    assert(shares.take(shares.len() as int) =~= shares);
    let a = allocated(shares, stake, shares.len() as int);
    let sum = crate::phragmen::shares_sum(shares);
    assert(a <= stake) by (nonlinear_arith)
        requires
            a * 4_294_967_296 <= sum * stake,
            sum <= 4_294_967_296,
            0 <= stake,
    ;
}

/// The outcome of an election rests on nothing but the registry, the bonds
/// and ledgers, and the two counts: two states that agree on these elect the
/// same validators, assign the nominators alike, and leave the same
/// exposures.
pub proof fn lemma_election_determined(a: State, b: State)
    requires
        a.validators == b.validators,
        a.nominators == b.nominators,
        a.bonded == b.bonded,
        a.ledger == b.ledger,
        a.validator_count == b.validator_count,
        a.minimum_validator_count == b.minimum_validator_count,
        a.equalize == b.equalize,
    ensures
        a.election() == b.election(),
        a.election() is Some ==> a.settled_exposures(a.election().unwrap().0, a.election().unwrap().1)
            == b.settled_exposures(b.election().unwrap().0, b.election().unwrap().1),
{
    assert(a.candidates() =~= b.candidates());
    assert(a.nominations() =~= b.nominations());
    if a.election() is Some {
        let stashes = a.election().unwrap().0;
        let assignments = a.election().unwrap().1;
        lemma_exposures_determined(a, b, stashes, assignments);
    }
}

/// The exposures that an election leaves rest on nothing but the bonds and
/// ledgers.
pub proof fn lemma_exposures_determined(
    a: State,
    b: State,
    elected: Seq<AccountId>,
    assignments: Seq<AssignmentView>,
)
    requires
        a.bonded == b.bonded,
        a.ledger == b.ledger,
        a.equalize == b.equalize,
    ensures
        a.settled_exposures(elected, assignments) == b.settled_exposures(elected, assignments),
{
    lemma_own_exposures_determined(a, b, elected, elected.len() as int);
    lemma_with_assignments_determined(
        a,
        b,
        a.own_exposures(elected, elected.len() as int),
        assignments,
        assignments.len() as int,
    );
}

/// The exposures before anybody backs them rest on nothing but the bonds
/// and ledgers.
pub proof fn lemma_own_exposures_determined(a: State, b: State, elected: Seq<AccountId>, n: int)
    requires
        a.bonded == b.bonded,
        a.ledger == b.ledger,
    ensures
        a.own_exposures(elected, n) == b.own_exposures(elected, n),
    decreases n,
{
    if n > 0 {
        lemma_own_exposures_determined(a, b, elected, n - 1);
    }
}

/// The exposures with the assignments behind them rest on nothing but the
/// bonds and ledgers.
pub proof fn lemma_with_assignments_determined(
    a: State,
    b: State,
    exposures: Map<AccountId, ExposureView>,
    assignments: Seq<AssignmentView>,
    n: int,
)
    requires
        a.bonded == b.bonded,
        a.ledger == b.ledger,
    ensures
        a.with_assignments(exposures, assignments, n) == b.with_assignments(exposures, assignments, n),
    decreases n,
{
    if n > 0 {
        lemma_with_assignments_determined(a, b, exposures, assignments, n - 1);
    }
}

/// The candidates of a state are its validators, each once.
pub proof fn lemma_candidates_distinct(state: State)
    requires
        state.validators.dom().finite(),
    ensures
        crate::invariants::distinct(state.candidates()),
{
    let keys = crate::store::ordered(state.validators.dom());
    lemma_ordered(state.validators.dom());
    assert forall|i: int, j: int| 0 <= i < j < state.candidates().len() implies (
    #[trigger] state.candidates()[i]).who != (#[trigger] state.candidates()[j]).who by {
        assert(keys[i] < keys[j]);
    }
}

/// The candidate at place `j` is a validator of the state, with what it
/// has at stake.
pub proof fn lemma_candidate_registered(state: State, j: int)
    requires
        state.validators.dom().finite(),
        0 <= j < state.candidates().len(),
    ensures
        state.validators.contains_key(state.candidates()[j].who),
        state.candidates()[j].stake == state.slashable_balance_of(state.candidates()[j].who),
{
    let keys = crate::store::ordered(state.validators.dom());
    lemma_ordered(state.validators.dom());
    assert(keys.to_set().contains(keys[j]));
}

/// The accounts of a finite set, in order, increase and are those of the
/// set.
pub proof fn lemma_ordered(dom: Set<AccountId>)
    requires
        dom.finite(),
    ensures
        crate::store::increasing(crate::store::ordered(dom)),
        crate::store::ordered(dom).to_set() == dom,
{
    crate::store::lemma_ordered_exists(dom);
}

/// Whether `least` is the least total among `exposures`, or the largest
/// amount that can be expressed where there are none.
pub open spec fn is_least_total(exposures: Map<AccountId, ExposureView>, least: Balance) -> bool {
    &&& forall|s: AccountId| #[trigger] exposures.contains_key(s) ==> least <= exposures[s].total
    &&& (exists|s: AccountId| #[trigger] exposures.contains_key(s) && exposures[s].total == least) || (
    least == u64::MAX && forall|s: AccountId| !#[trigger] exposures.contains_key(s))
}

/// The least total among the exposures.
fn least_total(exposures: &StorageMap<Exposure>) -> (r: Balance)
    requires
        exposures.wf(),
    ensures
        is_least_total(exposures@, r),
{
    let mut least: Balance = u64::MAX;
    let n = exposures.len();
    proof {
        exposures.lemma_keys();
    }
    let mut i: usize = 0;
    while i < n
        invariant
            i <= n,
            exposures.wf(),
            n == exposures.keys().len(),
            forall|k: int| 0 <= k < i ==> least <= exposures@[#[trigger] exposures.keys()[k]].total,
            (exists|k: int| 0 <= k < i && exposures@[#[trigger] exposures.keys()[k]].total == least) || (
            least == u64::MAX),
            i == 0 ==> least == u64::MAX,
        decreases n - i,
    {
        let e = exposures.value_at(i);
        if e.total < least {
            least = e.total;
        }
        i += 1;
    }
    proof {
        exposures.lemma_keys();
        assert forall|s: AccountId| #[trigger] exposures@.contains_key(s) implies least <= exposures@[s].total by {
            let k = exposures.keys().index_of(s);
            assert(0 <= k < n && exposures.keys()[k] == s);
        }
        if n == 0 {
            assert forall|s: AccountId| !#[trigger] exposures@.contains_key(s) by {
                assert(!exposures.keys().contains(s));
            }
        } else if exists|k: int| 0 <= k < n && exposures@[#[trigger] exposures.keys()[k]].total == least {
            let k = choose|k: int| 0 <= k < n && exposures@[#[trigger] exposures.keys()[k]].total == least;
            assert(exposures@.contains_key(exposures.keys()[k]));
        } else {
            let s = exposures.keys()[0];
            assert(exposures@.contains_key(s));
            assert(least <= exposures@[s].total);
        }
    }
    least
}

impl Module {
    /// The exposures that an election leaves in which `elected` won and the
    /// nominators were assigned as `assignments` say.
    fn build_exposures(&self, elected: &Vec<AccountId>, assignments: &Vec<Assignment>) -> (r: StorageMap<
        Exposure,
    >)
        requires
            self.wf(),
        ensures
            r.wf(),
            r@ == self@.exposures(elected@, assignments_view(assignments@)),
            forall|s: AccountId| #[trigger] r@.contains_key(s) ==> r@[s].wf(),
            forall|s: AccountId| #[trigger] r@.contains_key(s) ==> elected@.contains(s),
            forall|s: AccountId|
                elected@.contains(s) ==> #[trigger] r@.contains_key(s) && r@[s].own
                    == self@.slashable_balance_of(s),
    {
        let mut exposures: StorageMap<Exposure> = StorageMap::new();
        let mut i: usize = 0;
        while i < elected.len()
            invariant
                i <= elected.len(),
                self.wf(),
                exposures.wf(),
                exposures@ == self@.own_exposures(elected@, i as int),
                forall|s: AccountId| #[trigger] exposures@.contains_key(s) ==> exposures@[s].wf(),
                forall|s: AccountId| #[trigger] exposures@.contains_key(s) ==> elected@.contains(s),
                forall|s: AccountId| #[trigger]
                    exposures@.contains_key(s) ==> exposures@[s].own == self@.slashable_balance_of(s),
                forall|k: int| 0 <= k < i ==> exposures@.contains_key(#[trigger] elected@[k]),
            decreases elected.len() - i,
        {
            let e = elected[i];
            let s = self.slashable_balance_of(e);
            exposures.insert(e, Exposure { own: s, total: s, others: Vec::new() });
            i += 1;
        }
        let ghost views = assignments_view(assignments@);
        let ghost start = exposures@;
        let mut j: usize = 0;
        while j < assignments.len()
            invariant
                j <= assignments.len(),
                self.wf(),
                exposures.wf(),
                views == assignments_view(assignments@),
                exposures@ == self@.with_assignments(start, views, j as int),
                forall|s: AccountId| #[trigger] exposures@.contains_key(s) ==> exposures@[s].wf(),
                forall|s: AccountId| #[trigger] exposures@.contains_key(s) ==> elected@.contains(s),
                forall|s: AccountId| #[trigger]
                    exposures@.contains_key(s) ==> exposures@[s].own == self@.slashable_balance_of(s),
                forall|k: int| 0 <= k < elected@.len() ==> exposures@.contains_key(#[trigger] elected@[k]),
            decreases assignments.len() - j,
        {
            let assignment = &assignments[j];
            assert(views[j as int] == assignment@);
            let stake = self.slashable_balance_of(assignment.who);
            let ghost before = exposures@;
            let mut k: usize = 0;
            while k < assignment.shares.len()
                invariant
                    k <= assignment.shares.len(),
                    exposures.wf(),
                    exposures@ == with_shares(before, assignment.who, stake, assignment.shares@, k as int),
                    forall|s: AccountId| #[trigger] exposures@.contains_key(s) ==> exposures@[s].wf(),
                    forall|s: AccountId| #[trigger] exposures@.contains_key(s) ==> elected@.contains(s),
                    forall|s: AccountId| #[trigger]
                        exposures@.contains_key(s) ==> exposures@[s].own == self@.slashable_balance_of(s),
                    forall|k: int|
                        0 <= k < elected@.len() ==> exposures@.contains_key(#[trigger] elected@[k]),
                decreases assignment.shares.len() - k,
            {
                let (candidate, ratio) = assignment.shares[k];
                let ghost held = exposures@;
                match exposures.remove(candidate) {
                    Some(mut e) => {
                        let share = saturating_product(ratio, stake as ExtendedBalance) / ACCURACY;
                        let room = u64::MAX - e.total;
                        let value: Balance = if share <= room as ExtendedBalance {
                            share as Balance
                        } else {
                            room
                        };
                        let ghost old_e = e@;
                        e.total = e.total + value;
                        e.others.push(IndividualExposure { who: assignment.who, value });
                        proof {
                            assert(e.others@.drop_last() =~= old_e.others);
                            assert(e@ == backed_by(
                                held[candidate],
                                assignment.who,
                                stake_share(ratio, stake),
                            ));
                        }
                        exposures.insert(candidate, e);
                        assert(exposures@ =~= held.insert(
                            candidate,
                            backed_by(held[candidate], assignment.who, stake_share(ratio, stake)),
                        ));
                    },
                    None => {
                        assert(exposures@ =~= held);
                    },
                }
                k += 1;
            }
            j += 1;
        }
        proof {
            assert forall|s: AccountId| elected@.contains(s) implies #[trigger] exposures@.contains_key(s)
                && exposures@[s].own == self@.slashable_balance_of(s) by {
                let k = elected@.index_of(s);
                assert(exposures@.contains_key(elected@[k]));
            }
        }
        exposures
    }

    /// Select a new validator set from the assembled stakers and their role
    /// preferences.
    ///
    /// Gives the slot stake, and the controllers of the elected validators,
    /// in the order in which they won. Where the election fails nothing
    /// changes.
    pub fn select_validators(&mut self) -> (r: (Balance, Option<Vec<AccountId>>))
        requires
            old(self).wf(),
        ensures
            final(self).wf(),
            final(self)@ == old(self)@.elected(r.0),
            r.0 == final(self)@.slot_stake,
            match old(self)@.election() {
                Some((stashes, assignments)) => {
                    &&& is_least_total(final(self)@.stakers, r.0)
                    &&& r.1 is Some
                    &&& r.1.unwrap()@ == Seq::new(
                        stashes.len(),
                        |i: int| old(self)@.controller_of(stashes[i]),
                    )
                    &&& 0 < stashes.len() <= old(self)@.validator_count
                    &&& stashes.no_duplicates()
                    &&& forall|i: int|
                        0 <= i < stashes.len() ==> old(self)@.validators.contains_key(#[trigger] stashes[i])
                            && old(self)@.slashable_balance_of(stashes[i]) > 0
                    &&& forall|s: AccountId| #[trigger]
                        final(self)@.stakers.contains_key(s) <==> stashes.contains(s)
                    &&& forall|s: AccountId| #[trigger]
                        final(self)@.stakers.contains_key(s) ==> final(self)@.stakers[s].own == old(
                            self,
                        )@.slashable_balance_of(s)
                },
                None => r.1 is None,
            },
            r.1 is None <==> (old(self)@.seats() < old(self)@.minimum_validator_count || old(self)@.seats()
                < 1),
            r.1 is Some ==> r.1.unwrap()@.len() == old(self)@.seats(),
    {
        let ghost before = self@;
        proof {
            self.lemma_finite();
            lemma_candidates_distinct(before);
        }
        let candidates = self.candidates();
        let nominations = self.nominations();
        let minimum = if self.minimum_validator_count() >= 1 {
            self.minimum_validator_count()
        } else {
            1
        };
        match elect(self.validator_count() as usize, minimum as usize, &candidates, &nominations) {
            Some((elected_stashes, assignments)) => {
                proof {
                    self.lemma_finite();
                    lemma_candidates_distinct(before);
                    assert forall|i: int| 0 <= i < elected_stashes@.len() implies before.validators.contains_key(
                        #[trigger] elected_stashes@[i],
                    ) && before.slashable_balance_of(elected_stashes@[i]) > 0 by {
                        let who = elected_stashes@[i];
                        assert(crate::invariants::stands(before.candidates(), who));
                        let j = choose|j: int|
                            0 <= j < before.candidates().len() && (#[trigger] before.candidates()[j]).who
                                == who && before.candidates()[j].stake > 0;
                        lemma_candidate_registered(before, j);
                    }
                }
                let mut exposures = self.build_exposures(&elected_stashes, &assignments);
                if self.equalizes() {
                    equalize(&mut exposures, &assignments, EQUALIZE_TOLERANCE, EQUALIZE_ITERATIONS);
                }
                self.decay_slash_counts();
                let slot_stake = least_total(&exposures);
                let validators = self.controllers_of(&elected_stashes);
                self.enact(elected_stashes, exposures, slot_stake);
                (slot_stake, Some(validators))
            },
            None => (self.slot_stake(), None),
        }
    }

    /// The era has changed - enact new staking set.
    ///
    /// The reward of the era that ends is divided evenly among its
    /// validators and paid to them and their backers. Then a new epoch
    /// begins, where one is due, a new era is counted, and the validators of
    /// the new era are elected.
    pub fn new_era(&mut self, next_era_reward: Option<Balance>, reward_currency: &mut kton::Module) -> (r:
        SessionOutcome)
        requires
            old(self).wf(),
            old(reward_currency).wf(),
        ensures
            final(self).wf(),
            final(reward_currency).wf(),
            final(self)@ == old(self)@.turned(next_era_reward).elected(final(self)@.slot_stake),
            old(self)@.pays() ==> {
                &&& r.event == Some(Event::Reward(old(self)@.reward_per_validator()))
                &&& final(reward_currency)@ == old(self)@.rewarded_all(
                    old(reward_currency)@,
                    old(self)@.current_elected,
                    old(self)@.reward_per_validator(),
                    old(self)@.current_elected.len() as int,
                ).0
                &&& r.minted as int == old(self)@.rewarded_all(
                    old(reward_currency)@,
                    old(self)@.current_elected,
                    old(self)@.reward_per_validator(),
                    old(self)@.current_elected.len() as int,
                ).1
            },
            !old(self)@.pays() ==> r.event is None && r.minted == 0 && final(reward_currency)@ == old(
                reward_currency,
            )@,
            r.minted <= old(self)@.current_era_reward,
            match old(self)@.turned(next_era_reward).election() {
                Some((stashes, assignments)) => {
                    &&& is_least_total(final(self)@.stakers, final(self)@.slot_stake)
                    &&& r.validators is Some
                    &&& r.validators.unwrap()@ == Seq::new(
                        stashes.len(),
                        |i: int| old(self)@.controller_of(stashes[i]),
                    )
                },
                None => r.validators is None,
            },
    {
        let ghost before = self@;
        let ghost start = reward_currency@;
        let reward = self.current_era_reward();
        let validators = self.current_elected();
        let mut minted: Balance = 0;
        let mut paid: Option<Event> = None;
        if reward != 0 && validators.len() > 0 {
            let len = validators.len() as u64;
            let per_validator = reward / len;
            assert(len * per_validator <= reward) by (nonlinear_arith)
                requires
                    per_validator == reward / len,
                    len > 0,
            ;
            let mut i: usize = 0;
            while i < validators.len()
                invariant
                    i <= validators.len(),
                    self.wf(),
                    self@ == before,
                    reward_currency.wf(),
                    validators@ == before.current_elected,
                    len == validators@.len(),
                    len * per_validator <= reward,
                    reward_currency@ == before.rewarded_all(
                        start,
                        before.current_elected,
                        per_validator,
                        i as int,
                    ).0,
                    minted as int == before.rewarded_all(
                        start,
                        before.current_elected,
                        per_validator,
                        i as int,
                    ).1,
                    minted <= i * per_validator,
                decreases validators.len() - i,
            {
                assert((i + 1) * per_validator <= len * per_validator && (i + 1) * per_validator == i
                    * per_validator + per_validator) by (nonlinear_arith)
                    requires
                        i + 1 <= len,
                ;
                let grown = self.reward_validator(validators[i], per_validator, reward_currency);
                minted = minted + grown;
                i += 1;
            }
            assert(validators@.len() * per_validator <= reward);
            paid = Some(Event::Reward(per_validator));
            self.reset_era_reward();
        }
        if self.current_era() % self.eras_per_epoch() == 0 {
            self.new_epoch(next_era_reward);
        }
        self.begin_era();
        let (_, maybe_new_validators) = self.select_validators();
        SessionOutcome { validators: maybe_new_validators, event: paid, minted }
    }

    /// Session has just ended. Provide the validator set for the next
    /// session if it's an era-end.
    ///
    /// The reward of the session goes to that of the era. The era ends where
    /// `session_index` is a multiple of the sessions of an era or a new era
    /// was forced.
    pub fn new_session(
        &mut self,
        session_index: SessionIndex,
        next_era_reward: Option<Balance>,
        reward_currency: &mut kton::Module,
    ) -> (r: SessionOutcome)
        requires
            old(self).wf(),
            old(reward_currency).wf(),
        ensures
            final(self).wf(),
            final(reward_currency).wf(),
            !old(self)@.era_ends(session_index) ==> {
                &&& final(self)@ == old(self)@.session_ended()
                &&& final(reward_currency)@ == old(reward_currency)@
                &&& r.validators is None
                &&& r.event is None
                &&& r.minted == 0
            },
            old(self)@.era_ends(session_index) ==> {
                let ended = old(self)@.session_ended();
                &&& final(self)@ == ended.turned(next_era_reward).elected(final(self)@.slot_stake)
                &&& ended.pays() ==> {
                    &&& r.event == Some(Event::Reward(ended.reward_per_validator()))
                    &&& final(reward_currency)@ == ended.rewarded_all(
                        old(reward_currency)@,
                        ended.current_elected,
                        ended.reward_per_validator(),
                        ended.current_elected.len() as int,
                    ).0
                    &&& r.minted as int == ended.rewarded_all(
                        old(reward_currency)@,
                        ended.current_elected,
                        ended.reward_per_validator(),
                        ended.current_elected.len() as int,
                    ).1
                }
                &&& !ended.pays() ==> r.event is None && r.minted == 0 && final(reward_currency)@ == old(
                    reward_currency,
                )@
                &&& r.minted <= ended.current_era_reward
                &&& match ended.turned(next_era_reward).election() {
                    Some((stashes, assignments)) => {
                        &&& is_least_total(final(self)@.stakers, final(self)@.slot_stake)
                        &&& r.validators is Some
                        &&& r.validators.unwrap()@ == Seq::new(
                            stashes.len(),
                            |i: int| old(self)@.controller_of(stashes[i]),
                        )
                    },
                    None => r.validators is None,
                }
            },
    {
        self.accrue_session_reward();
        let forced = self.take_forcing();
        if forced || session_index % self.sessions_per_era() == 0 {
            self.new_era(next_era_reward, reward_currency)
        } else {
            SessionOutcome { validators: None, event: None, minted: 0 }
        }
    }

    /// The session with index `i` is ending: the next one begins.
    /// `next_era_reward` is what the reward curve gives as the reward budget
    /// of the next era, where it could compute one; it counts where a new
    /// epoch begins.
    pub fn on_session_ending(
        &mut self,
        i: SessionIndex,
        next_era_reward: Option<Balance>,
        reward_currency: &mut kton::Module,
    ) -> (r: SessionOutcome)
        requires
            old(self).wf(),
            old(reward_currency).wf(),
            i < u32::MAX,
        ensures
            final(self).wf(),
            final(reward_currency).wf(),
            !old(self)@.era_ends((i + 1) as SessionIndex) ==> {
                &&& final(self)@ == old(self)@.session_ended()
                &&& final(reward_currency)@ == old(reward_currency)@
                &&& r.validators is None
                &&& r.event is None
                &&& r.minted == 0
            },
            old(self)@.era_ends((i + 1) as SessionIndex) ==> {
                let ended = old(self)@.session_ended();
                &&& final(self)@ == ended.turned(next_era_reward).elected(final(self)@.slot_stake)
                &&& ended.pays() ==> {
                    &&& r.event == Some(Event::Reward(ended.reward_per_validator()))
                    &&& final(reward_currency)@ == ended.rewarded_all(
                        old(reward_currency)@,
                        ended.current_elected,
                        ended.reward_per_validator(),
                        ended.current_elected.len() as int,
                    ).0
                    &&& r.minted as int == ended.rewarded_all(
                        old(reward_currency)@,
                        ended.current_elected,
                        ended.reward_per_validator(),
                        ended.current_elected.len() as int,
                    ).1
                }
                &&& !ended.pays() ==> r.event is None && r.minted == 0 && final(reward_currency)@ == old(
                    reward_currency,
                )@
                &&& r.minted <= ended.current_era_reward
                &&& match ended.turned(next_era_reward).election() {
                    Some((stashes, assignments)) => {
                        &&& is_least_total(final(self)@.stakers, final(self)@.slot_stake)
                        &&& r.validators is Some
                        &&& r.validators.unwrap()@ == Seq::new(
                            stashes.len(),
                            |i: int| old(self)@.controller_of(stashes[i]),
                        )
                    },
                    None => r.validators is None,
                }
            },
    {
        self.new_session(i + 1, next_era_reward, reward_currency)
    }
}

} // verus!
