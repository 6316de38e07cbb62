//! The equalization pass: after an election, each nominator's stake is
//! moved between the elected validators that it voted for, from the one with
//! the most behind it to the one with the least, so that the backings come
//! closer to each other. Who is elected does not change, and no nominator
//! gives more than it has behind a validator.

use vstd::prelude::*;
use crate::exposure::{Exposure, ExposureView};
use crate::phragmen::{Assignment, AssignmentView, Shares, assignments_view};
use crate::primitives::{AccountId, Balance, ExtendedBalance};
use crate::store::StorageMap;

verus! {

/// The exposures of the elected validators, by stash.
pub type Exposures = Map<AccountId, ExposureView>;

/// Every exposure adds up.
pub open spec fn all_wf(exposures: Exposures) -> bool {
    forall|s: AccountId| #[trigger] exposures.contains_key(s) ==> exposures[s].wf()
}

/// Whether the same validators are exposed, each with as much of its own.
pub open spec fn same_validators(a: Exposures, b: Exposures) -> bool {
    &&& a.dom() == b.dom()
    &&& forall|s: AccountId| #[trigger] a.contains_key(s) ==> a[s].own == b[s].own
}

/// The place among the first `n` of `shares` of the validator that
/// `nominator` can give from: the one with the largest total among those
/// that it has something behind, and the first of these where several have
/// as much.
pub open spec fn giver(exposures: Exposures, nominator: AccountId, shares: Shares, n: int) -> Option<int>
    decreases n,
{
    if n <= 0 {
        None
    } else {
        let b = giver(exposures, nominator, shares, n - 1);
        let t = shares[n - 1].0;
        if exposures.contains_key(t) && exposures[t].backing_of(nominator) > 0 && (b is None
            || exposures[t].total > exposures[shares[b.unwrap()].0].total) {
            Some(n - 1)
        } else {
            b
        }
    }
}

/// The place among the first `n` of `shares` of the validator that is to be
/// given to: the one with the smallest total, and the first of these where
/// several have as little.
pub open spec fn taker(exposures: Exposures, shares: Shares, n: int) -> Option<int>
    decreases n,
{
    if n <= 0 {
        None
    } else {
        let b = taker(exposures, shares, n - 1);
        let t = shares[n - 1].0;
        if exposures.contains_key(t) && (b is None || exposures[t].total
            < exposures[shares[b.unwrap()].0].total) {
            Some(n - 1)
        } else {
            b
        }
    }
}

/// What goes from a validator with `high` behind it, of which `backing` is
/// the nominator's, to one with `low`: half of what lies between the two,
/// as far as the nominator's backing reaches.
pub open spec fn transfer(high: Balance, low: Balance, backing: Balance) -> Balance {
    if (high - low) / 2 <= backing {
        ((high - low) / 2) as Balance
    } else {
        backing
    }
}

/// What goes from the one validator to the other brings the two closer and
/// does not turn them round: the one that had more still has no less.
pub proof fn lemma_transfer_narrows(high: Balance, low: Balance, backing: Balance)
    requires
        low <= high,
    ensures
        transfer(high, low, backing) <= backing,
        low + transfer(high, low, backing) <= high - transfer(high, low, backing),
{
}

/// The exposures after the stake of `nominator` was balanced between the
/// validators of `shares`: where the one it can give from has more than
/// `tolerance` more behind it than the one with the least, what `transfer`
/// says goes from the one to the other.
pub open spec fn balanced(exposures: Exposures, nominator: AccountId, shares: Shares, tolerance: Balance) -> Exposures {
    let g = giver(exposures, nominator, shares, shares.len() as int);
    let t = taker(exposures, shares, shares.len() as int);
    if g is Some && t is Some {
        let from = shares[g.unwrap()].0;
        let to = shares[t.unwrap()].0;
        let high = exposures[from].total;
        let low = exposures[to].total;
        if high > low && high - low > tolerance && transfer(
            high,
            low,
            exposures[from].backing_of(nominator),
        ) > 0 {
            let amount = transfer(high, low, exposures[from].backing_of(nominator));
            exposures.insert(from, exposures[from].reduced(nominator, amount)).insert(
                to,
                exposures[to].raised(nominator, amount),
            )
        } else {
            exposures
        }
    } else {
        exposures
    }
}

/// The exposures after the stakes of the nominators of the first `n` of
/// `assignments` were balanced, one after the other.
pub open spec fn balanced_upto(
    exposures: Exposures,
    assignments: Seq<AssignmentView>,
    tolerance: Balance,
    n: int,
) -> Exposures
    decreases n,
{
    if n <= 0 {
        exposures
    } else {
        balanced(
            balanced_upto(exposures, assignments, tolerance, n - 1),
            assignments[n - 1].who,
            assignments[n - 1].shares,
            tolerance,
        )
    }
}

/// The exposures after `iterations` passes over all of `assignments`.
pub open spec fn equalized(
    exposures: Exposures,
    assignments: Seq<AssignmentView>,
    tolerance: Balance,
    iterations: int,
) -> Exposures
    decreases iterations,
{
    if iterations <= 0 {
        exposures
    } else {
        balanced_upto(
            equalized(exposures, assignments, tolerance, iterations - 1),
            assignments,
            tolerance,
            assignments.len() as int,
        )
    }
}

/// The place among `shares` of the validator that `nominator` can give from.
fn find_giver(
    exposures: &StorageMap<Exposure>,
    nominator: AccountId,
    shares: &Vec<(AccountId, ExtendedBalance)>,
) -> (r: Option<usize>)
    requires
        exposures.wf(),
    ensures
        match r {
            Some(g) => giver(exposures@, nominator, shares@, shares@.len() as int) == Some(g as int) && g
                < shares@.len() && exposures@.contains_key(shares@[g as int].0),
            None => giver(exposures@, nominator, shares@, shares@.len() as int) is None,
        },
{
    let mut found: Option<usize> = None;
    let mut most: Balance = 0;
    let mut i: usize = 0;
    while i < shares.len()
        invariant
            i <= shares.len(),
            exposures.wf(),
            match found {
                Some(g) => giver(exposures@, nominator, shares@, i as int) == Some(g as int) && g < i
                    && exposures@.contains_key(shares@[g as int].0) && most
                    == exposures@[shares@[g as int].0].total,
                None => giver(exposures@, nominator, shares@, i as int) is None,
            },
        decreases shares.len() - i,
    {
        match exposures.get(shares[i].0) {
            Some(e) => {
                if e.backing_of(nominator) > 0 && (found.is_none() || e.total > most) {
                    found = Some(i);
                    most = e.total;
                }
            },
            None => {},
        }
        i += 1;
    }
    found
}

/// The place among `shares` of the validator that is to be given to.
fn find_taker(exposures: &StorageMap<Exposure>, shares: &Vec<(AccountId, ExtendedBalance)>) -> (r: Option<
    usize,
>)
    requires
        exposures.wf(),
    ensures
        match r {
            Some(t) => taker(exposures@, shares@, shares@.len() as int) == Some(t as int) && t
                < shares@.len() && exposures@.contains_key(shares@[t as int].0),
            None => taker(exposures@, shares@, shares@.len() as int) is None,
        },
{
    let mut found: Option<usize> = None;
    let mut least: Balance = 0;
    let mut i: usize = 0;
    while i < shares.len()
        invariant
            i <= shares.len(),
            exposures.wf(),
            match found {
                Some(t) => taker(exposures@, shares@, i as int) == Some(t as int) && t < i
                    && exposures@.contains_key(shares@[t as int].0) && least
                    == exposures@[shares@[t as int].0].total,
                None => taker(exposures@, shares@, i as int) is None,
            },
        decreases shares.len() - i,
    {
        match exposures.get(shares[i].0) {
            Some(e) => {
                if found.is_none() || e.total < least {
                    found = Some(i);
                    least = e.total;
                }
            },
            None => {},
        }
        i += 1;
    }
    found
}

/// Balances the stake of `nominator` between the validators of `shares`.
fn balance(
    exposures: &mut StorageMap<Exposure>,
    nominator: AccountId,
    shares: &Vec<(AccountId, ExtendedBalance)>,
    tolerance: Balance,
)
    requires
        old(exposures).wf(),
        all_wf(old(exposures)@),
    ensures
        final(exposures).wf(),
        all_wf(final(exposures)@),
        final(exposures)@ == balanced(old(exposures)@, nominator, shares@, tolerance),
        same_validators(old(exposures)@, final(exposures)@),
{
    let g = find_giver(exposures, nominator, shares);
    let t = find_taker(exposures, shares);
    let ghost before = exposures@;
    match (g, t) {
        (Some(g), Some(t)) => {
            let from = shares[g].0;
            let to = shares[t].0;
            let (high, backing) = match exposures.get(from) {
                Some(e) => (e.total, e.backing_of(nominator)),
                None => (0, 0),
            };
            let low = match exposures.get(to) {
                Some(e) => e.total,
                None => 0,
            };
            if high > low && high - low > tolerance {
                let half = (high - low) / 2;
                let amount = if half <= backing { half } else { backing };
                if amount > 0 {
                    match exposures.remove(from) {
                        Some(mut e) => {
                            e.reduce(nominator, amount);
                            exposures.insert(from, e);
                        },
                        None => {},
                    }
                    let ghost given = exposures@;
                    assert(given =~= before.insert(from, before[from].reduced(nominator, amount)));
                    match exposures.remove(to) {
                        Some(mut e) => {
                            e.raise(nominator, amount);
                            exposures.insert(to, e);
                        },
                        None => {},
                    }
                    assert(exposures@ =~= given.insert(to, before[to].raised(nominator, amount)));
                    assert(exposures@.dom() =~= before.dom());
                }
            }
        },
        _ => {},
    }
}

/// Runs `iterations` passes over `assignments`, and in each balances the
/// stake of every nominator between the elected validators that it voted
/// for. The validators stay the same, and every exposure still adds up.
pub fn equalize(
    exposures: &mut StorageMap<Exposure>,
    assignments: &Vec<Assignment>,
    tolerance: Balance,
    iterations: usize,
)
    requires
        old(exposures).wf(),
        all_wf(old(exposures)@),
    ensures
        final(exposures).wf(),
        all_wf(final(exposures)@),
        final(exposures)@ == equalized(
            old(exposures)@,
            assignments_view(assignments@),
            tolerance,
            iterations as int,
        ),
        same_validators(old(exposures)@, final(exposures)@),
{
    let ghost start = exposures@;
    let ghost views = assignments_view(assignments@);
    let mut pass: usize = 0;
    while pass < iterations
        invariant
            pass <= iterations,
            exposures.wf(),
            all_wf(exposures@),
            views == assignments_view(assignments@),
            exposures@ == equalized(start, views, tolerance, pass as int),
            same_validators(start, exposures@),
        decreases iterations - pass,
    {
        let ghost before = exposures@;
        let mut i: usize = 0;
        while i < assignments.len()
            invariant
                i <= assignments.len(),
                exposures.wf(),
                all_wf(exposures@),
                views == assignments_view(assignments@),
                exposures@ == balanced_upto(before, views, tolerance, i as int),
                same_validators(before, exposures@),
                same_validators(start, before),
            decreases assignments.len() - i,
        {
            let assignment = &assignments[i];
            assert(views[i as int] == assignment@);
            balance(exposures, assignment.who, &assignment.shares, tolerance);
            i += 1;
        }
        pass += 1;
    }
}

} // verus!
