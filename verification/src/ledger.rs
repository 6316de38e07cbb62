//! The ledger of a bonded stash: what is at stake, and what is on its way
//! out.

use vstd::prelude::*;
use crate::primitives::{AccountId, Balance, EraIndex};

verus! {

/// The most chunks that a ledger holds on their way out.
pub const MAX_UNLOCKING_CHUNKS: usize = 32;

/// Just a balance and an era, to say when a chunk of funds will be unlocked.
#[derive(Clone, Copy, PartialEq, Eq, Debug)]
pub struct UnlockChunk {
    /// Amount of funds to be unlocked.
    pub value: Balance,
    /// Era number at which point it'll be unlocked.
    pub era: EraIndex,
}

/// The ledger of a (bonded) stash.
#[derive(Clone, PartialEq, Eq, Debug)]
pub struct StakingLedger {
    /// The stash account whose balance is actually locked and at stake.
    pub stash: AccountId,
    /// The total amount of the stash's balance that we are currently
    /// accounting for. It's just `active` plus all the `unlocking` balances.
    pub total: Balance,
    /// The total amount of the stash's balance that will be at stake in any
    /// forthcoming rounds.
    pub active: Balance,
    /// Any balance that is becoming free, which may eventually be transferred
    /// out of the stash (assuming it doesn't get slashed first).
    pub unlocking: Vec<UnlockChunk>,
}

/// The funds in `chunks`, all together.
pub open spec fn chunks_value(chunks: Seq<UnlockChunk>) -> int
    decreases chunks.len(),
{
    if chunks.len() == 0 {
        0
    } else {
        chunks_value(chunks.drop_last()) + chunks.last().value
    }
}

/// The funds in those of `chunks` that are unlocked in era `era`.
pub open spec fn matured_value(chunks: Seq<UnlockChunk>, era: EraIndex) -> int
    decreases chunks.len(),
{
    if chunks.len() == 0 {
        0
    } else {
        matured_value(chunks.drop_last(), era) + if chunks.last().era <= era {
            chunks.last().value as int
        } else {
            0
        }
    }
}

/// Those of `chunks` that are still locked in era `era`, in their order.
pub open spec fn still_locked(chunks: Seq<UnlockChunk>, era: EraIndex) -> Seq<UnlockChunk> {
    chunks.filter(|c: UnlockChunk| c.era > era)
}

/// A ledger as a plain value.
pub ghost struct LedgerView {
    pub stash: AccountId,
    pub total: Balance,
    pub active: Balance,
    pub unlocking: Seq<UnlockChunk>,
}

impl LedgerView {
    /// The total is the active balance and the chunks on their way out, and
    /// there are no more of these than a ledger may hold.
    pub open spec fn wf(self) -> bool {
        &&& self.total == self.active + chunks_value(self.unlocking)
        &&& self.unlocking.len() <= MAX_UNLOCKING_CHUNKS
    }

    /// The ledger once the chunks that are unlocked in era `era` have left
    /// it: they are gone from the queue and their funds from the total.
    pub open spec fn consolidated(self, era: EraIndex) -> LedgerView {
        LedgerView {
            total: if self.total >= matured_value(self.unlocking, era) {
                (self.total - matured_value(self.unlocking, era)) as Balance
            } else {
                0
            },
            unlocking: still_locked(self.unlocking, era),
            ..self
        }
    }

    /// What can be added to the stake of a stash that holds `stash_balance`
    /// when at most `max_additional` is asked for.
    pub open spec fn extra(self, stash_balance: Balance, max_additional: Balance) -> Balance {
        if stash_balance < self.total {
            0
        } else if stash_balance - self.total <= max_additional {
            (stash_balance - self.total) as Balance
        } else {
            max_additional
        }
    }

    /// The ledger with `extra` more at stake.
    pub open spec fn bonded_extra(self, extra: Balance) -> LedgerView {
        LedgerView {
            total: (self.total + extra) as Balance,
            active: (self.active + extra) as Balance,
            ..self
        }
    }

    /// What leaves the active balance when `value` is to be unbonded: no more
    /// than is active, and all of it where less than `minimum_balance` would
    /// stay.
    pub open spec fn unbonding(self, value: Balance, minimum_balance: Balance) -> Balance {
        if value >= self.active {
            self.active
        } else if self.active - value < minimum_balance {
            self.active
        } else {
            value
        }
    }

    /// The ledger after `value` was unbonded with `minimum_balance` as the
    /// least that may stay active: where anything leaves, it waits in a new
    /// chunk, last in the queue, for era `era`.
    pub open spec fn unbonded(self, value: Balance, minimum_balance: Balance, era: EraIndex) -> LedgerView {
        if value == 0 || self.active == 0 {
            self
        } else {
            LedgerView {
                active: (self.active - self.unbonding(value, minimum_balance)) as Balance,
                unlocking: self.unlocking.push(
                    UnlockChunk { value: self.unbonding(value, minimum_balance), era },
                ),
                ..self
            }
        }
    }
}

impl View for StakingLedger {
    type V = LedgerView;

    open spec fn view(&self) -> LedgerView {
        LedgerView {
            stash: self.stash,
            total: self.total,
            active: self.active,
            unlocking: self.unlocking@,
        }
    }
}

/// Chunks hold nothing negative.
pub proof fn lemma_chunks_nonnegative(chunks: Seq<UnlockChunk>)
    ensures
        0 <= chunks_value(chunks),
    decreases chunks.len(),
{
    if chunks.len() > 0 {
        lemma_chunks_nonnegative(chunks.drop_last());
    }
}

/// The chunks that are still locked and those that are unlocked make up the
/// whole.
pub proof fn lemma_chunks_split(chunks: Seq<UnlockChunk>, era: EraIndex)
    ensures
        chunks_value(chunks) == chunks_value(still_locked(chunks, era)) + matured_value(chunks, era),
        0 <= matured_value(chunks, era) <= chunks_value(chunks),
        still_locked(chunks, era).len() <= chunks.len(),
    decreases chunks.len(),
{
    reveal(Seq::filter);
    if chunks.len() > 0 {
        lemma_chunks_split(chunks.drop_last(), era);
        let keep = |c: UnlockChunk| c.era > era;
        if chunks.last().era > era {
            assert(chunks.filter(keep) == chunks.drop_last().filter(keep).push(chunks.last()));
            assert(chunks.filter(keep).drop_last() =~= chunks.drop_last().filter(keep));
        }
    }
}

/// Among the chunks that are still locked none is unlocked.
pub proof fn lemma_still_locked_twice(chunks: Seq<UnlockChunk>, era: EraIndex)
    ensures
        still_locked(still_locked(chunks, era), era) == still_locked(chunks, era),
        matured_value(still_locked(chunks, era), era) == 0,
    decreases chunks.len(),
{
    reveal(Seq::filter);
    let keep = |c: UnlockChunk| c.era > era;
    if chunks.len() > 0 {
        lemma_still_locked_twice(chunks.drop_last(), era);
        if chunks.last().era > era {
            let kept = chunks.drop_last().filter(keep);
            assert(chunks.filter(keep) == kept.push(chunks.last()));
            assert(kept.push(chunks.last()).drop_last() =~= kept);
            assert(kept.push(chunks.last()).filter(keep) == kept.filter(keep).push(chunks.last()));
        }
    }
}

/// A ledger that adds up still does once the unlocked chunks have left it.
pub proof fn lemma_consolidated_adds_up(ledger: LedgerView, era: EraIndex)
    requires
        ledger.wf(),
    ensures
        ledger.consolidated(era).wf(),
        ledger.consolidated(era).active == ledger.active,
        ledger.consolidated(era).total == ledger.total - matured_value(ledger.unlocking, era),
{
    lemma_chunks_split(ledger.unlocking, era);
    lemma_chunks_nonnegative(still_locked(ledger.unlocking, era));
}

/// A ledger that adds up still does once more was bonded, as far as the
/// stash holds it.
pub proof fn lemma_bonded_extra_adds_up(ledger: LedgerView, stash_balance: Balance, max_additional: Balance)
    requires
        ledger.wf(),
    ensures
        ledger.bonded_extra(ledger.extra(stash_balance, max_additional)).wf(),
        ledger.total + ledger.extra(stash_balance, max_additional) <= u64::MAX,
{
    lemma_chunks_nonnegative(ledger.unlocking);
}

/// A ledger that adds up and has room for a chunk still adds up once some of
/// its stake was unbonded, and its total is the same.
pub proof fn lemma_unbonded_adds_up(ledger: LedgerView, value: Balance, minimum_balance: Balance, era: EraIndex)
    requires
        ledger.wf(),
        ledger.unlocking.len() < MAX_UNLOCKING_CHUNKS,
    ensures
        ledger.unbonded(value, minimum_balance, era).wf(),
        ledger.unbonded(value, minimum_balance, era).total == ledger.total,
{
    if !(value == 0 || ledger.active == 0) {
        let chunk = UnlockChunk { value: ledger.unbonding(value, minimum_balance), era };
        assert(ledger.unlocking.push(chunk).drop_last() =~= ledger.unlocking);
    }
}

/// Once the unlocked chunks have left a ledger, there are none to leave it
/// in the same era: to consolidate it again changes nothing.
pub proof fn lemma_consolidated_twice(ledger: LedgerView, era: EraIndex)
    ensures
        ledger.consolidated(era).consolidated(era) == ledger.consolidated(era),
{
    lemma_still_locked_twice(ledger.unlocking, era);
}

impl StakingLedger {
    /// A copy of the ledger.
    pub fn duplicate(&self) -> (r: StakingLedger)
        ensures
            r@ == self@,
    {
        let mut unlocking: Vec<UnlockChunk> = Vec::new();
        let mut i: usize = 0;
        while i < self.unlocking.len()
            invariant
                i <= self.unlocking.len(),
                unlocking@ == self.unlocking@.take(i as int),
            decreases self.unlocking.len() - i,
        {
            unlocking.push(self.unlocking[i]);
            assert(unlocking@ =~= self.unlocking@.take(i + 1));
            i += 1;
        }
        assert(self.unlocking@.take(self.unlocking@.len() as int) =~= self.unlocking@);
        StakingLedger { stash: self.stash, total: self.total, active: self.active, unlocking }
    }

    /// Remove entries from `unlocking` that are sufficiently old and reduce
    /// the total by the sum of their balances.
    pub fn consolidate_unlocked(self, current_era: EraIndex) -> (r: StakingLedger)
        ensures
            r@ == self@.consolidated(current_era),
            self@.wf() ==> r@.wf(),
    {
        let mut total = self.total;
        let mut unlocking: Vec<UnlockChunk> = Vec::new();
        let ghost keep = |c: UnlockChunk| c.era > current_era;
        let mut i: usize = 0;
        while i < self.unlocking.len()
            invariant
                i <= self.unlocking.len(),
                keep == (|c: UnlockChunk| c.era > current_era),
                unlocking@ == self.unlocking@.take(i as int).filter(keep),
                0 <= matured_value(self.unlocking@.take(i as int), current_era),
                total as int == if self.total >= matured_value(
                    self.unlocking@.take(i as int),
                    current_era,
                ) {
                    self.total - matured_value(self.unlocking@.take(i as int), current_era)
                } else {
                    0
                },
            decreases self.unlocking.len() - i,
        {
            let chunk = self.unlocking[i];
            proof {
                reveal(Seq::filter);
                assert(self.unlocking@.take(i + 1).drop_last() =~= self.unlocking@.take(i as int));
            }
            if chunk.era > current_era {
                unlocking.push(chunk);
            } else {
                total = total.saturating_sub(chunk.value);
            }
            i += 1;
        }
        proof {
            assert(self.unlocking@.take(self.unlocking@.len() as int) =~= self.unlocking@);
            lemma_chunks_split(self.unlocking@, current_era);
        }
        StakingLedger { total, active: self.active, stash: self.stash, unlocking }
    }
}

} // verus!
