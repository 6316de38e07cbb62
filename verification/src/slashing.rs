//! Slashing: what is taken from a validator that misbehaved, and from its
//! backers, and when a validator that was reported offline is slashed.

use vstd::prelude::*;
use crate::exposure::{ExposureView, IndividualExposure, others_value, shares_upto};
use crate::exposure::{lemma_others_value_nonnegative, lemma_shares_within};
use crate::kton;
use crate::module::{Event, Module, State};
use crate::perbill::{parts_of, share, share_of};
use crate::primitives::{AccountId, Balance};
use crate::registry::MAX_UNSTAKE_THRESHOLD;

verus! {

/// The outcome of a report that a validator was offline.
#[derive(Clone, Copy, PartialEq, Eq, Debug)]
pub struct OfflineReport {
    /// What became of the validator. After a slash its controller is to be
    /// disabled for the rest of the session.
    pub event: Event,
    /// What was actually taken from the validator and its backers, all
    /// together.
    pub penalty: Balance,
}

/// Two to the power of `n`.
pub open spec fn two_to(n: nat) -> int
    decreases n,
{
    if n == 0 {
        1
    } else {
        2 * two_to((n - 1) as nat)
    }
}

/// What a validator with a total exposure of `exposure` is slashed for being
/// offline, where the rate is `rate` parts per billion and its unstake
/// threshold is `threshold`: the rate of its exposure, doubled as often as
/// the threshold says, and no more than the exposure.
pub open spec fn offline_slash(rate: int, exposure: Balance, threshold: u32) -> Balance {
    let base = parts_of(rate, exposure as int);
    if base * two_to(threshold as nat) <= exposure {
        (base * two_to(threshold as nat)) as Balance
    } else {
        exposure
    }
}

/// The currency after the first `n` of `others` were slashed by their shares
/// of `rest`, and what was taken from them.
pub open spec fn slashed_others(
    currency: kton::State,
    others: Seq<IndividualExposure>,
    total: Balance,
    rest: Balance,
    n: int,
) -> (kton::State, int)
    decreases n,
{
    if n <= 0 {
        (currency, 0)
    } else {
        let before = slashed_others(currency, others, total, rest, n - 1);
        let who = others[n - 1].who;
        let amount = share(others[n - 1].value as int, total as int, rest as int) as Balance;
        (
            before.0.slashed(who, amount),
            before.1 + before.0.slashed_free(who, amount) + before.0.slashed_reserved(who, amount),
        )
    }
}

impl State {
    /// What is to be taken when the validator `stash` is slashed by `slash`:
    /// no more than its total exposure.
    pub open spec fn slash_due(self, stash: AccountId, slash: Balance) -> Balance {
        if slash <= self.exposure_of(stash).total {
            slash
        } else {
            self.exposure_of(stash).total
        }
    }

    /// What of a slash of `slash` is to be taken from the validator `stash`
    /// itself: as much as it has exposed of its own.
    pub open spec fn own_slash_due(self, stash: AccountId, slash: Balance) -> Balance {
        if self.exposure_of(stash).own <= self.slash_due(stash, slash) {
            self.exposure_of(stash).own
        } else {
            self.slash_due(stash, slash)
        }
    }

    /// The currency after the validator `stash` was slashed by `slash`, and
    /// what was taken. The validator's own funds go first, as far as its own
    /// exposure reaches; what that leaves is taken from the backers in
    /// proportion to what each has exposed. Nobody gives more than it has.
    pub open spec fn slashed(self, currency: kton::State, stash: AccountId, slash: Balance) -> (
        kton::State,
        int,
    ) {
        let exposure = self.exposure_of(stash);
        let own_slash = self.own_slash_due(stash, slash);
        let own_taken = currency.slashed_free(stash, own_slash) + currency.slashed_reserved(
            stash,
            own_slash,
        );
        let after_own = currency.slashed(stash, own_slash);
        let rest = (self.slash_due(stash, slash) - own_taken) as Balance;
        let total = (exposure.total - exposure.own) as Balance;
        if rest == 0 || total == 0 {
            (after_own, own_taken)
        } else {
            let others = slashed_others(
                after_own,
                exposure.others,
                total,
                rest,
                exposure.others.len() as int,
            );
            (others.0, own_taken + others.1)
        }
    }
}

/// Two to the power of `threshold`, for a threshold that a validator may
/// ask for.
fn doubling(threshold: u32) -> (r: u128)
    requires
        threshold <= MAX_UNSTAKE_THRESHOLD,
    ensures
        r as int == two_to(threshold as nat),
        1 <= r <= 1024,
{
    let mut r: u128 = 1;
    let mut i: u32 = 0;
    while i < threshold
        invariant
            i <= threshold <= 10,
            r as int == two_to(i as nat),
            1 <= r,
            i <= 0 ==> r <= 1,
            i <= 1 ==> r <= 2,
            i <= 2 ==> r <= 4,
            i <= 3 ==> r <= 8,
            i <= 4 ==> r <= 16,
            i <= 5 ==> r <= 32,
            i <= 6 ==> r <= 64,
            i <= 7 ==> r <= 128,
            i <= 8 ==> r <= 256,
            i <= 9 ==> r <= 512,
            r <= 1024,
        decreases threshold - i,
    {
        r = r * 2;
        i += 1;
    }
    r
}

impl Module {
    /// Slash a given validator by a specific amount. Removes the slash from
    /// the validator's balance by preference, and reduces the nominators'
    /// balance if needed. Says what was taken, all together: never more than
    /// the amount asked for, nor than the validator's total exposure.
    pub fn slash_validator(&self, stash: AccountId, slash: Balance, currency: &mut kton::Module) -> (r: Balance)
        requires
            self.wf(),
            old(currency).wf(),
        ensures
            final(currency).wf(),
            final(currency)@ == self@.slashed(old(currency)@, stash, slash).0,
            r as int == self@.slashed(old(currency)@, stash, slash).1,
            r <= self@.slash_due(stash, slash),
            r <= slash,
            self@.slash_due(stash, slash) <= self@.exposure_of(stash).own && self@.slash_due(stash, slash)
                <= old(currency)@.free_balance(stash) + old(currency)@.reserved_balance(stash) ==> r
                == self@.slash_due(stash, slash),
    {
        let exposure = self.stakers(stash);
        let ghost view = self@.exposure_of(stash);
        let ghost start = currency@;
        proof {
            assert(view.wf());
            lemma_others_value_nonnegative(view.others);
        }
        let slash = if slash <= exposure.total { slash } else { exposure.total };
        let own_slash = if exposure.own <= slash { exposure.own } else { slash };
        let (taken, missing) = currency.slash(stash, own_slash);
        let mut imbalance = taken;
        let own_slash = own_slash - missing;
        let rest_slash = slash - own_slash;
        if rest_slash != 0 {
            let total = exposure.total - exposure.own;
            if total != 0 {
                let ghost after_own = currency@;
                let ghost backers = ExposureView { total, own: 0, others: view.others };
                let mut i: usize = 0;
                while i < exposure.others.len()
                    invariant
                        i <= exposure.others.len(),
                        currency.wf(),
                        exposure@ == view,
                        backers == (ExposureView { total, own: 0, others: view.others }),
                        others_value(view.others) == total,
                        total > 0,
                        taken + rest_slash <= u64::MAX,
                        currency@ == slashed_others(after_own, view.others, total, rest_slash, i as int).0,
                        imbalance as int == taken + slashed_others(
                            after_own,
                            view.others,
                            total,
                            rest_slash,
                            i as int,
                        ).1,
                        imbalance as int <= taken + shares_upto(
                            view.others,
                            total as int,
                            rest_slash as int,
                            i as int,
                        ),
                    decreases exposure.others.len() - i,
                {
                    let backer = exposure.others[i];
                    let due = share_of(backer.value, total, rest_slash);
                    proof {
                        lemma_shares_within(backers, total as int, rest_slash as int, i as int + 1);
                    }
                    let (got, _) = currency.slash(backer.who, due);
                    imbalance = imbalance + got;
                    i += 1;
                }
                proof {
                    lemma_shares_within(
                        backers,
                        total as int,
                        rest_slash as int,
                        view.others.len() as int,
                    );
                }
            }
        }
        imbalance
    }

    /// Call when a validator is determined to be offline. `count` is the
    /// number of offenses the validator has committed.
    ///
    /// The validator is named by its controller. Nothing happens where the
    /// controller has no ledger or its stash is invulnerable. Else the
    /// offenses are counted and the report is kept. Where the validator has
    /// then more offenses than the grace and its unstake threshold allow, it
    /// is slashed and no longer validates; else it is warned.
    pub fn on_offline_validator(&mut self, controller: AccountId, count: usize, currency: &mut kton::Module) -> (r:
        Option<OfflineReport>)
        requires
            old(self).wf(),
            old(currency).wf(),
        ensures
            final(self).wf(),
            final(currency).wf(),
            r is None <==> (!old(self)@.ledger.contains_key(controller) || old(self)@.invulnerables.contains(
                old(self)@.ledger[controller].stash,
            )),
            r is None ==> final(self)@ == old(self)@ && final(currency)@ == old(currency)@,
            r is Some ==> {
                let before = old(self)@;
                let stash = before.ledger[controller].stash;
                let counted = counted_offline(before.slash_count_of(stash), count);
                let noted = State {
                    slash_count: before.slash_count.insert(stash, counted),
                    recently_offline: crate::module::recorded(
                        before.recently_offline,
                        (stash, old(currency)@.block_number, offenses(count)),
                    ),
                    ..before
                };
                if counted > tolerated(before.offline_slash_grace, before.prefs_of(stash).unstake_threshold) {
                    let slash = offline_slash(
                        before.offline_slash,
                        before.exposure_of(stash).total,
                        capped_threshold(before.prefs_of(stash).unstake_threshold),
                    );
                    &&& r.unwrap().event == Event::OfflineSlash(stash, slash)
                    &&& r.unwrap().penalty as int == before.slashed(old(currency)@, stash, slash).1
                    &&& r.unwrap().penalty <= slash
                    &&& final(currency)@ == before.slashed(old(currency)@, stash, slash).0
                    &&& final(self)@ == (State { validators: before.validators.remove(stash), ..noted })
                } else {
                    &&& r.unwrap().event == Event::OfflineWarning(stash, before.slash_count_of(stash))
                    &&& r.unwrap().penalty == 0
                    &&& final(currency)@ == old(currency)@
                    &&& final(self)@ == noted
                }
            },
    {
        let stash = match self.ledger(controller) {
            Some(l) => l.stash,
            None => return None,
        };
        let invulnerables = self.invulnerables();
        if crate::registry::is_among(&invulnerables, stash) {
            return None;
        }
        let offenses: u32 = if count > u32::MAX as usize { u32::MAX } else { count as u32 };
        let slash_count = self.slash_count(stash);
        let new_slash_count = slash_count.saturating_add(offenses);
        let unstake_threshold = self.unstake_threshold(stash);
        let slash_exposure = self.slashable_balance(stash);
        let offline_slash_base = self.offline_slash_base(slash_exposure);
        self.set_slash_count(stash, new_slash_count);
        let grace = self.offline_slash_grace();
        self.record_offline(stash, currency.block_number(), offenses);
        let unstake_threshold = if unstake_threshold <= MAX_UNSTAKE_THRESHOLD {
            unstake_threshold
        } else {
            MAX_UNSTAKE_THRESHOLD
        };
        let max_slashes = grace.saturating_add(unstake_threshold);
        if new_slash_count > max_slashes {
            let factor = doubling(unstake_threshold);
            assert(offline_slash_base as u128 * factor <= 0xffff_ffff_ffff_ffff * 1024)
                by (nonlinear_arith)
                requires
                    offline_slash_base <= 0xffff_ffff_ffff_ffff,
                    factor <= 1024,
            ;
            let scaled: u128 = offline_slash_base as u128 * factor;
            let slash: Balance = if scaled <= slash_exposure as u128 {
                scaled as Balance
            } else {
                slash_exposure
            };
            let penalty = self.slash_validator(stash, slash, currency);
            self.remove_validator(stash);
            Some(OfflineReport { event: Event::OfflineSlash(stash, slash), penalty })
        } else {
            Some(OfflineReport { event: Event::OfflineWarning(stash, slash_count), penalty: 0 })
        }
    }
}

/// The number of offenses in a report, as far as they can be counted.
pub open spec fn offenses(count: usize) -> u32 {
    if count > u32::MAX {
        u32::MAX
    } else {
        count as u32
    }
}

/// The offenses of a validator that had `before` once `count` more were
/// reported, as far as they can be counted.
pub open spec fn counted_offline(before: u32, count: usize) -> u32 {
    if before + offenses(count) > u32::MAX {
        u32::MAX
    } else {
        (before + offenses(count)) as u32
    }
}

/// The unstake threshold that counts: no more than the largest that a
/// validator may ask for.
pub open spec fn capped_threshold(unstake_threshold: u32) -> u32 {
    if unstake_threshold <= MAX_UNSTAKE_THRESHOLD {
        unstake_threshold
    } else {
        MAX_UNSTAKE_THRESHOLD
    }
}

/// The most offenses that go without a slash: the grace and the unstake
/// threshold together.
pub open spec fn tolerated(grace: u32, unstake_threshold: u32) -> u32 {
    if grace + capped_threshold(unstake_threshold) > u32::MAX {
        u32::MAX
    } else {
        (grace + capped_threshold(unstake_threshold)) as u32
    }
}

} // verus!
