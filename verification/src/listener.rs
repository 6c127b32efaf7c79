//! The decisions of the listener loop: which block to resume from after a
//! batch of whitelist events, and which nonce the new commitment carries.
use vstd::prelude::*;
use crate::chain::WhitelistLog;

verus! {

/// Number of hypercube dimensions; the on-chain verifier expects 20.
pub const NUM_VARS: usize = 20;

/// The largest nonce among the first `n` logs, or 0.
pub open spec fn max_nonce(logs: Seq<WhitelistLog>, n: nat) -> nat
    decreases n,
{
    if n == 0 {
        0
    } else {
        let m = max_nonce(logs, (n - 1) as nat);
        if logs[n - 1].nonce > m {
            logs[n - 1].nonce as nat
        } else {
            m
        }
    }
}

/// The largest block number among `start` and the first `n` logs.
pub open spec fn max_block(logs: Seq<WhitelistLog>, n: nat, start: nat) -> nat
    decreases n,
{
    if n == 0 {
        start
    } else {
        let m = max_block(logs, (n - 1) as nat, start);
        if logs[n - 1].block_number > m {
            logs[n - 1].block_number as nat
        } else {
            m
        }
    }
}

/// The resume block lies past the start block and past every log of the
/// batch, so no processed block is fetched again.
pub proof fn lemma_no_block_replayed(logs: Seq<WhitelistLog>, n: nat, start: nat)
    requires
        n <= logs.len(),
    ensures
        start < max_block(logs, n, start) + 1,
        forall|i: int| 0 <= i < n ==> (#[trigger] logs[i]).block_number < max_block(logs, n, start) + 1,
    decreases n,
{
    if n > 0 {
        lemma_no_block_replayed(logs, (n - 1) as nat, start);
    }
}

/// The nonce of the batch is at least the nonce of each of its logs.
pub proof fn lemma_nonce_covers_batch(logs: Seq<WhitelistLog>, n: nat)
    requires
        n <= logs.len(),
    ensures
        forall|i: int| 0 <= i < n ==> (#[trigger] logs[i]).nonce <= max_nonce(logs, n),
    decreases n,
{
    if n > 0 {
        lemma_nonce_covers_batch(logs, (n - 1) as nat);
    }
}

/// Where the listener stands after applying a batch of logs.
#[derive(Debug, Clone, Copy, PartialEq, Eq, Structural)]
pub struct SyncProgress {
    /// The nonce submitted with the new commitment.
    pub max_nonce: u64,
    /// The block the next fetch starts from, one past the last one processed.
    pub next_block: u64,
}

/// After a batch of logs fetched from `last_processed_block` on: the largest
/// nonce seen, and the block after the largest block seen, so that no block is replayed.
pub fn sync_progress(logs: &[WhitelistLog], last_processed_block: u64) -> (p: SyncProgress)
    requires
        last_processed_block < u64::MAX,
        forall|i: int| 0 <= i < logs.len() ==> (#[trigger] logs@[i]).block_number < u64::MAX,
    ensures
        p.max_nonce == max_nonce(logs@, logs.len() as nat),
        p.next_block == max_block(logs@, logs.len() as nat, last_processed_block as nat) + 1,
{
    let mut max_nonce_seen: u64 = 0;
    let mut max_block_seen: u64 = last_processed_block;
    let mut i: usize = 0;
    while i < logs.len()
        invariant
            i <= logs.len(),
            last_processed_block < u64::MAX,
            forall|k: int| 0 <= k < logs.len() ==> (#[trigger] logs@[k]).block_number < u64::MAX,
            max_nonce_seen == max_nonce(logs@, i as nat),
            max_block_seen == max_block(logs@, i as nat, last_processed_block as nat),
            max_block_seen < u64::MAX,
        decreases logs.len() - i,
    {
        let log = &logs[i];
        if log.nonce > max_nonce_seen {
            max_nonce_seen = log.nonce;
        }
        if log.block_number > max_block_seen {
            max_block_seen = log.block_number;
        }
        i = i + 1;
    }
    SyncProgress { max_nonce: max_nonce_seen, next_block: max_block_seen + 1 }
}

/// A change to the local whitelist that one event calls for.
#[derive(Debug, Clone)]
pub enum WhitelistChange {
    /// Insert (or replace) the address, recording the nonce it was added at.
    Add { address: String, nonce: u64 },
    /// Delete the address.
    Remove { address: String },
}

/// The change that a log calls for.
pub open spec fn change_for(log: WhitelistLog) -> WhitelistChange {
    if log.added {
        WhitelistChange::Add { address: log.address, nonce: log.nonce }
    } else {
        WhitelistChange::Remove { address: log.address }
    }
}

/// The whitelist changes that a batch of logs calls for, one per log, in order.
pub fn whitelist_changes(logs: &[WhitelistLog]) -> (changes: Vec<WhitelistChange>)
    ensures
        changes@ == logs@.map_values(|l: WhitelistLog| change_for(l)),
{
    let mut changes: Vec<WhitelistChange> = Vec::with_capacity(logs.len());
    let mut i: usize = 0;
    while i < logs.len()
        invariant
            i <= logs.len(),
            changes@ == logs@.take(i as int).map_values(|l: WhitelistLog| change_for(l)),
        decreases logs.len() - i,
    {
        let log = &logs[i];
        let change = if log.added {
            WhitelistChange::Add { address: log.address.clone(), nonce: log.nonce }
        } else {
            WhitelistChange::Remove { address: log.address.clone() }
        };
        changes.push(change);
        i = i + 1;
        assert(changes@ =~= logs@.take(i as int).map_values(|l: WhitelistLog| change_for(l)));
    }
    assert(logs@.take(logs.len() as int) =~= logs@);
    changes
}

/// How a polling round ends.
#[derive(Debug, Clone, Copy, PartialEq, Eq, Structural)]
pub struct RoundOutcome {
    /// The block the next round fetches from.
    pub from_block: u64,
    /// The state to persist (`last_block` and `last_nonce`), after a round that
    /// fetched at least one log; `None` after an empty round.
    pub record: Option<SyncProgress>,
}

/// Ends a polling round that fetched `logs` from `from_block` on. An empty
/// round changes nothing. Otherwise the next round starts one past the
/// largest block seen, and exactly that block is recorded as `last_block`,
/// so a restart resumes where the next round would have.
pub fn finish_round(logs: &[WhitelistLog], from_block: u64) -> (out: RoundOutcome)
    requires
        logs.len() > 0 ==> from_block < u64::MAX,
        forall|i: int| 0 <= i < logs.len() ==> (#[trigger] logs@[i]).block_number < u64::MAX,
    ensures
        logs.len() == 0 ==> out == (RoundOutcome { from_block, record: None }),
        logs.len() > 0 ==> out.record == Some(
            SyncProgress {
                max_nonce: max_nonce(logs@, logs.len() as nat) as u64,
                next_block: (max_block(logs@, logs.len() as nat, from_block as nat) + 1) as u64,
            },
        ),
        out.record matches Some(p) ==> p.next_block == out.from_block,
        out.from_block >= from_block,
        logs.len() > 0 ==> out.from_block > from_block,
{
    if logs.len() == 0 {
        RoundOutcome { from_block, record: None }
    } else {
        let progress = sync_progress(logs, from_block);
        proof {
            lemma_no_block_replayed(logs@, logs.len() as nat, from_block as nat);
        }
        RoundOutcome { from_block: progress.next_block, record: Some(progress) }
    }
}

} // verus!
