//! The distribution of rewards: a validator's up-front payment, and the rest
//! shared out between the validator and its backers in proportion to what
//! each has exposed.

use vstd::prelude::*;
use crate::exposure::{ExposureView, IndividualExposure, others_value, shares_upto};
use crate::exposure::lemma_shares_within;
use crate::kton;
use crate::module::{Module, State};
use crate::perbill::{lemma_share_bound, lemma_share_exact, share, share_of};
use crate::primitives::{AccountId, Balance};
use crate::registry::RewardDestination;

verus! {

/// The currency after `amount` was paid to `target`, and by how much the
/// funds grew: nothing is paid where there is no target or the target holds
/// nothing.
pub open spec fn paid_out(currency: kton::State, target: Option<AccountId>, amount: Balance) -> (
    kton::State,
    Balance,
) {
    match target {
        Some(t) => if currency.total_balance(t) == 0 {
            (currency, 0)
        } else {
            (
                currency.with_free(t, currency.deposited(t, amount)),
                (currency.deposited(t, amount) - currency.free_balance(t)) as Balance,
            )
        },
        None => (currency, 0),
    }
}

/// What a validator with `exposure` and an up-front payment of `payment` is
/// due, with its backers, out of `reward`: the payment, as far as the reward
/// covers it, and of the rest the share of each backer and of the validator.
pub open spec fn reward_due(exposure: ExposureView, payment: Balance, reward: Balance) -> int {
    let off_the_table = if reward <= payment { reward } else { payment };
    let rest = reward - off_the_table;
    let total = if exposure.total >= 1 { exposure.total as int } else { 1 };
    off_the_table + shares_upto(exposure.others, total, rest, exposure.others.len() as int) + share(
        exposure.own as int,
        total,
        rest,
    )
}

impl State {
    /// The account that a payout to `stash` goes to: its controller, itself,
    /// or none.
    pub open spec fn payout_target(self, stash: AccountId) -> Option<AccountId> {
        match self.payee_of(stash) {
            RewardDestination::Controller => if self.bonded.contains_key(stash) {
                Some(self.bonded[stash])
            } else {
                None
            },
            RewardDestination::Stash => Some(stash),
            RewardDestination::StakedDeprecated => None,
        }
    }

    /// The currency after the first `n` of `others` were paid their shares of
    /// `reward`, and by how much the funds grew.
    pub open spec fn rewarded_others(
        self,
        currency: kton::State,
        others: Seq<IndividualExposure>,
        total: Balance,
        reward: Balance,
        n: int,
    ) -> (kton::State, int)
        decreases n,
    {
        if n <= 0 {
            (currency, 0)
        } else {
            let before = self.rewarded_others(currency, others, total, reward, n - 1);
            let paid = paid_out(
                before.0,
                self.payout_target(others[n - 1].who),
                share(others[n - 1].value as int, total as int, reward as int) as Balance,
            );
            (paid.0, before.1 + paid.1)
        }
    }

    /// The currency after the validator `stash` and its backers were paid
    /// out of `reward`, and by how much the funds grew.
    pub open spec fn rewarded(self, currency: kton::State, stash: AccountId, reward: Balance) -> (
        kton::State,
        int,
    ) {
        let payment = self.prefs_of(stash).validator_payment;
        let off_the_table = if reward <= payment { reward } else { payment };
        let rest = (reward - off_the_table) as Balance;
        let exposure = self.exposure_of(stash);
        let total: Balance = if exposure.total >= 1 { exposure.total } else { 1 };
        let others = if rest == 0 {
            (currency, 0int)
        } else {
            self.rewarded_others(currency, exposure.others, total, rest, exposure.others.len() as int)
        };
        let cut = if rest == 0 {
            0
        } else {
            share(exposure.own as int, total as int, rest as int)
        };
        let paid = paid_out(others.0, self.payout_target(stash), (cut + off_the_table) as Balance);
        (paid.0, others.1 + paid.1)
    }
}

/// What a validator and its backers are due is never more than the reward.
pub proof fn lemma_reward_conservation(exposure: ExposureView, payment: Balance, reward: Balance)
    requires
        exposure.wf(),
    ensures
        0 <= reward_due(exposure, payment, reward) <= reward,
{
    let off_the_table = if reward <= payment { reward } else { payment };
    let rest = reward - off_the_table;
    let total = if exposure.total >= 1 { exposure.total as int } else { 1 };
    lemma_shares_within(exposure, total, rest, exposure.others.len() as int);
}

/// What falls to the first `n` backers where each gets its exact proportion
/// of `amount`, rounded down.
pub open spec fn exact_shares_upto(others: Seq<IndividualExposure>, total: int, amount: int, n: int) -> int
    decreases n,
{
    if n <= 0 {
        0
    } else {
        exact_shares_upto(others, total, amount, n - 1) + (others[n - 1].value * amount) / total
    }
}

/// Whether the ratio of each of the first `n` backers to `total` is a whole
/// number of billionths.
pub open spec fn ratios_exact(others: Seq<IndividualExposure>, total: int, n: int) -> bool {
    forall|i: int| 0 <= i < n ==> (#[trigger] others[i].value * 1_000_000_000) % total == 0
}

/// Rounded-down proportions of the first `n` backers fall short of the exact
/// ones, all together, by less than one each.
pub proof fn lemma_exact_shares_gap(others: Seq<IndividualExposure>, total: int, amount: int, n: int)
    requires
        0 <= n <= others.len(),
        0 < total,
        0 <= amount,
    ensures
        exact_shares_upto(others, total, amount, n) * total <= others_value(others.take(n)) * amount,
        others_value(others.take(n)) * amount - exact_shares_upto(others, total, amount, n) * total <= n
            * (total - 1),
    decreases n,
{
    if n > 0 {
        lemma_exact_shares_gap(others, total, amount, n - 1);
        assert(others.take(n).drop_last() =~= others.take(n - 1));
        let a = exact_shares_upto(others, total, amount, n - 1);
        let v = others[n - 1].value as int;
        let q = (v * amount) / total;
        let va = others_value(others.take(n - 1));
        assert(q * total <= v * amount <= q * total + (total - 1)) by (nonlinear_arith)
            requires
                q == (v * amount) / total,
                0 < total,
        ;
        assert((a + q) * total <= (va + v) * amount && (va + v) * amount - (a + q) * total <= n * (total
            - 1)) by (nonlinear_arith)
            requires
                a * total <= va * amount,
                va * amount - a * total <= (n - 1) * (total - 1),
                q * total <= v * amount <= q * total + (total - 1),
        ;
    } else {
        assert(others.take(0) =~= Seq::<IndividualExposure>::empty());
        assert(0 * total == 0 && 0 * amount == 0 && 0 * (total - 1) == 0) by (nonlinear_arith);
    }
}

/// Where the ratios of the backers are whole numbers of billionths, each
/// share is the exact proportion rounded down.
pub proof fn lemma_shares_exact(others: Seq<IndividualExposure>, total: int, amount: int, n: int)
    requires
        0 <= n <= others.len(),
        0 < total,
        0 <= amount,
        ratios_exact(others, total, n),
        forall|i: int| 0 <= i < n ==> (#[trigger] others[i]).value <= total,
    ensures
        shares_upto(others, total, amount, n) == exact_shares_upto(others, total, amount, n),
    decreases n,
{
    if n > 0 {
        lemma_shares_exact(others, total, amount, n - 1);
        assert((others[n - 1].value * 1_000_000_000) % total == 0);
        assert(others[n - 1].value <= total);
        lemma_share_exact(others[n - 1].value as int, total, amount);
    }
}

/// Where the ratio of each stake to the total exposure is a whole number of
/// billionths, what is due falls short of the reward by no more than the
/// number of backers: each of them, and the validator, loses less than one
/// unit to rounding.
pub proof fn lemma_reward_discrepancy(exposure: ExposureView, payment: Balance, reward: Balance)
    requires
        exposure.wf(),
        exposure.total >= 1,
        ratios_exact(exposure.others, exposure.total as int, exposure.others.len() as int),
        (exposure.own * 1_000_000_000) % (exposure.total as int) == 0,
    ensures
        reward - reward_due(exposure, payment, reward) <= exposure.others.len(),
{
    let off_the_table = if reward <= payment { reward } else { payment };
    let rest = reward - off_the_table;
    let total = exposure.total as int;
    let n = exposure.others.len() as int;
    assert forall|i: int| 0 <= i < n implies (#[trigger] exposure.others[i]).value <= total by {
        crate::exposure::lemma_value_bounded(exposure.others, i);
    }
    lemma_shares_exact(exposure.others, total, rest, n);
    lemma_exact_shares_gap(exposure.others, total, rest, n);
    crate::exposure::lemma_others_value_nonnegative(exposure.others);
    lemma_share_exact(exposure.own as int, total, rest);
    assert(exposure.others.take(n) =~= exposure.others);
    let a = exact_shares_upto(exposure.others, total, rest, n);
    let q = (exposure.own * rest) / total;
    let va = others_value(exposure.others);
    let v = exposure.own as int;
    assert(q * total <= v * rest <= q * total + (total - 1)) by (nonlinear_arith)
        requires
            q == (v * rest) / total,
            0 < total,
    ;
    assert(rest - (a + q) <= n) by (nonlinear_arith)
        requires
            va * rest - a * total <= n * (total - 1),
            v * rest <= q * total + (total - 1),
            va + v == total,
            0 < total,
            0 <= n,
    ;
}

impl Module {
    /// Actually make a payment to a staker: into the account that the payee
    /// of `stash` names. Says by how much the funds grew, or nothing where
    /// nothing was paid.
    pub fn make_payout(&self, stash: AccountId, amount: Balance, reward_currency: &mut kton::Module) -> (r:
        Option<Balance>)
        requires
            self.wf(),
            old(reward_currency).wf(),
        ensures
            final(reward_currency).wf(),
            final(reward_currency)@ == paid_out(
                old(reward_currency)@,
                self@.payout_target(stash),
                amount,
            ).0,
            match r {
                Some(paid) => paid == paid_out(
                    old(reward_currency)@,
                    self@.payout_target(stash),
                    amount,
                ).1,
                None => paid_out(old(reward_currency)@, self@.payout_target(stash), amount).1 == 0,
            },
            r is None <==> (self@.payout_target(stash) is None || old(reward_currency)@.total_balance(
                self@.payout_target(stash).unwrap(),
            ) == 0),
    {
        let dest = self.payee(stash);
        match dest {
            RewardDestination::Controller => match self.bonded(stash) {
                Some(controller) => match reward_currency.deposit_into_existing(controller, amount) {
                    Ok(paid) => Some(paid),
                    Err(_) => None,
                },
                None => None,
            },
            RewardDestination::Stash => match reward_currency.deposit_into_existing(stash, amount) {
                Ok(paid) => Some(paid),
                Err(_) => None,
            },
            RewardDestination::StakedDeprecated => None,
        }
    }

    /// Reward a given validator by a specific amount. Add the reward to the
    /// validator's, and its nominators' balance, pro-rata based on their
    /// exposure, after having removed the validator's pre-payout cut. Says
    /// by how much the funds grew, all payments together.
    pub fn reward_validator(&self, stash: AccountId, reward: Balance, reward_currency: &mut kton::Module) -> (r:
        Balance)
        requires
            self.wf(),
            old(reward_currency).wf(),
        ensures
            final(reward_currency).wf(),
            final(reward_currency)@ == self@.rewarded(old(reward_currency)@, stash, reward).0,
            r as int == self@.rewarded(old(reward_currency)@, stash, reward).1,
            r as int <= reward_due(
                self@.exposure_of(stash),
                self@.prefs_of(stash).validator_payment,
                reward,
            ),
            r <= reward,
    {
        let payment = self.validator_payment(stash);
        let off_the_table = if reward <= payment { reward } else { payment };
        let reward = reward - off_the_table;
        let mut imbalance: Balance = 0;
        let ghost start = reward_currency@;
        let ghost view = self@.exposure_of(stash);
        let ghost whole: int = if view.total >= 1 { view.total as int } else { 1 };
        proof {
            assert(view.wf());
            lemma_shares_within(view, whole, reward as int, view.others.len() as int);
        }
        let validator_cut = if reward == 0 {
            0
        } else {
            let exposure = self.stakers(stash);
            let total = if exposure.total >= 1 { exposure.total } else { 1 };
            let mut i: usize = 0;
            while i < exposure.others.len()
                invariant
                    i <= exposure.others.len(),
                    self.wf(),
                    reward_currency.wf(),
                    exposure@ == view,
                    view.wf(),
                    total as int == whole,
                    whole == if view.total >= 1 { view.total as int } else { 1 },
                    reward_currency@ == self@.rewarded_others(start, view.others, total, reward, i as int).0,
                    imbalance as int == self@.rewarded_others(
                        start,
                        view.others,
                        total,
                        reward,
                        i as int,
                    ).1,
                    imbalance as int <= shares_upto(view.others, whole, reward as int, i as int),
                decreases exposure.others.len() - i,
            {
                let backer = exposure.others[i];
                let due = share_of(backer.value, total, reward);
                proof {
                    lemma_shares_within(view, whole, reward as int, i as int + 1);
                    lemma_share_bound(view.own as int, whole, reward as int);
                }
                match self.make_payout(backer.who, due, reward_currency) {
                    Some(paid) => {
                        imbalance = imbalance + paid;
                    },
                    None => {},
                }
                i += 1;
            }
            share_of(exposure.own, total, reward)
        };
        match self.make_payout(stash, validator_cut + off_the_table, reward_currency) {
            Some(paid) => {
                imbalance = imbalance + paid;
            },
            None => {},
        }
        imbalance
    }
}

} // verus!
