//! From consensus batches to blocks: which batch is turned into a block
//! next, how transactions are packed into a block until it is full, and what
//! a finalized block's logs ask of this node. Building, importing and
//! finalizing blocks happen outside; their outcomes come back as arguments.

use vstd::prelude::*;
use std::collections::VecDeque;
use crate::validators::{ConsensusLog, LogView};

verus! {

/// What pushing a transaction into a block came to.
#[derive(Clone, Copy, Debug, PartialEq, Eq, Structural)]
pub enum BlockPushResult {
    InvalidData,
    Pushed,
    BlockFull,
    BlockError,
}

/// What becomes of a transaction after a push.
#[derive(Clone, Copy, Debug, PartialEq, Eq, Structural)]
pub enum PackOutcome {
    /// It is in the block, or dropped; go on.
    Next,
    /// The block is full: the transaction goes back to the overflow queue.
    Requeue,
}

/// Packing state: how many transactions the block holds, and whether it is
/// full.
pub struct BlockPacker {
    pub cnt: u64,
    pub block_done: bool,
}

/// The outcome of a push: a full block takes no more once it holds a
/// transaction; a transaction too large for an empty block is dropped.
pub open spec fn pack_outcome(cnt: u64, result: BlockPushResult) -> PackOutcome {
    if result == BlockPushResult::BlockFull && cnt > 0 {
        PackOutcome::Requeue
    } else {
        PackOutcome::Next
    }
}

impl BlockPacker {
    pub fn new() -> (r: BlockPacker)
        ensures
            r.cnt == 0,
            !r.block_done,
    {
        BlockPacker { cnt: 0, block_done: false }
    }

    /// Accounts for the push of one transaction.
    pub fn after_push(&mut self, result: BlockPushResult) -> (r: PackOutcome)
        requires
            old(self).cnt < u64::MAX,
        ensures
            r == pack_outcome(old(self).cnt, result),
            final(self).cnt == if result == BlockPushResult::Pushed {
                old(self).cnt + 1
            } else {
                old(self).cnt as int
            },
            final(self).block_done == (old(self).block_done || r == PackOutcome::Requeue),
    {
        match result {
            BlockPushResult::BlockFull => {
                if self.cnt > 0 {
                    self.block_done = true;
                    PackOutcome::Requeue
                } else {
                    PackOutcome::Next
                }
            },
            BlockPushResult::Pushed => {
                self.cnt = self.cnt + 1;
                PackOutcome::Next
            },
            _ => PackOutcome::Next,
        }
    }

    /// Whether a batched transaction skips the block, which is full.
    pub fn skips(&self) -> (r: bool)
        ensures
            r == self.block_done,
    {
        self.block_done
    }
}

/// The batches waiting to become blocks, and the block awaiting
/// finalization.
pub struct BatchBlockMechanics<T> {
    pub queued_block: Option<u64>,
    pub queued_batches: VecDeque<T>,
    /// The batch the queued block was built from.
    pub pending_batch: Option<T>,
}

/// What building a block from a batch came to.
pub enum BatchStep {
    /// No block was built.
    Nothing,
    /// The block with this hash awaits the justification of these
    /// authorities.
    EmitJustification(u64, Vec<u64>),
}

/// What finalizing the queued block came to.
pub enum PreFinalizeStep<T> {
    /// It was not the queued block, or finalization failed.
    Nothing,
    /// The block numbered `announce` is final, to be announced in a sync
    /// report to every peer and kept under the sync topic; the next batch
    /// is to be built into a block.
    NextBatch { announce: u64, batch: T },
    /// The block numbered `announce` is final, to be announced likewise,
    /// and no batch waits; `votes` are the validator sets this node voted
    /// for in the block's logs.
    Completed { announce: u64, votes: Vec<Vec<u64>> },
}

impl<T> BatchBlockMechanics<T> {
    pub fn new() -> (r: BatchBlockMechanics<T>)
        ensures
            r.queued_block is None,
            r.queued_batches@.len() == 0,
            r.pending_batch is None,
    {
        BatchBlockMechanics { queued_block: None, queued_batches: VecDeque::new(), pending_batch: None }
    }

    /// Records the block built from `batch` (its hash, or `None` where no
    /// block could be built): the batch is pending, and a built block awaits
    /// finalization and the justification of `authorities`.
    pub fn batch_to_block(&mut self, batch: T, built: Option<u64>, authorities: &Vec<u64>) -> (r: BatchStep)
        ensures
            final(self).pending_batch == Some(batch),
            final(self).queued_batches@ == old(self).queued_batches@,
            match built {
                Some(h) => final(self).queued_block == Some(h) && (r matches BatchStep::EmitJustification(
                    h2,
                    a,
                ) && h2 == h && a@ == authorities@),
                None => final(self).queued_block == old(self).queued_block && r is Nothing,
            },
    {
        self.pending_batch = Some(batch);
        match built {
            Some(h) => {
                self.queued_block = Some(h);
                let mut a: Vec<u64> = Vec::new();
                let mut i: usize = 0;
                while i < authorities.len()
                    invariant
                        0 <= i <= authorities@.len(),
                        a@ == authorities@.take(i as int),
                    decreases authorities@.len() - i,
                {
                    a.push(authorities[i]);
                    proof {
                        assert(authorities@.take(i + 1) =~= authorities@.take(i as int).push(
                            authorities@[i as int],
                        ));
                    }
                    i = i + 1;
                }
                proof {
                    assert(authorities@.take(i as int) =~= authorities@);
                }
                BatchStep::EmitJustification(h, a)
            },
            None => BatchStep::Nothing,
        }
    }

    /// Finalizes the queued block if its hash is `hash`: `finalized` says
    /// whether its import and finalization, done before, succeeded, and
    /// `logs` are its consensus logs. The queue holds no block afterwards
    /// either way. A final block numbered `block_number` is announced, and
    /// then the next batch is taken, or the votes of this node (`self_id`)
    /// in its logs are returned.
    pub fn pre_finalize(
        &mut self,
        hash: u64,
        finalized: bool,
        block_number: u64,
        logs: &Vec<ConsensusLog>,
        self_id: u64,
    ) -> (r: PreFinalizeStep<T>)
        ensures
            final(self).queued_block is None,
            final(self).pending_batch == old(self).pending_batch,
            !(old(self).queued_block == Some(hash) && finalized) ==> r is Nothing
                && final(self).queued_batches@ == old(self).queued_batches@,
            old(self).queued_block == Some(hash) && finalized ==> if old(self).queued_batches@.len()
                > 0 {
                &&& r matches PreFinalizeStep::NextBatch { announce, batch } && announce
                    == block_number && batch == old(self).queued_batches@[0]
                &&& final(self).queued_batches@ == old(self).queued_batches@.drop_first()
            } else {
                &&& r matches PreFinalizeStep::Completed { announce, votes } && announce
                    == block_number && votes@.map_values(|v: Vec<u64>| v@) == own_votes(
                    logs@.map_values(|l: ConsensusLog| l@),
                    self_id,
                )
                &&& final(self).queued_batches@.len() == 0
            },
    {
        if !self.take_block(hash) || !finalized {
            return PreFinalizeStep::Nothing;
        }
        match self.next_batch() {
            Some(batch) => PreFinalizeStep::NextBatch { announce: block_number, batch },
            None => PreFinalizeStep::Completed { announce: block_number, votes: extract_votes(logs, self_id) },
        }
    }

    /// Queues a new batch and, unless a block awaits finalization, hands
    /// out the oldest batch to turn into a block.
    pub fn consume_batch(&mut self, obatch: Option<T>) -> (r: Option<T>)
        ensures
            final(self).pending_batch == old(self).pending_batch,
            final(self).queued_block == old(self).queued_block,
            ({
                let q = match obatch {
                    Some(b) => old(self).queued_batches@.push(b),
                    None => old(self).queued_batches@,
                };
                if old(self).queued_block is Some || q.len() == 0 {
                    r is None && final(self).queued_batches@ == q
                } else {
                    r == Some(q[0]) && final(self).queued_batches@ == q.drop_first()
                }
            }),
    {
        match obatch {
            Some(b) => self.queued_batches.push_back(b),
            None => {},
        }
        if self.queued_block.is_some() {
            return None;
        }
        self.queued_batches.pop_front()
    }

    /// Takes the block awaiting finalization if its hash is `hash`; the
    /// queue holds no block afterwards either way.
    pub fn take_block(&mut self, hash: u64) -> (r: bool)
        ensures
            final(self).pending_batch == old(self).pending_batch,
            r == (old(self).queued_block == Some(hash)),
            final(self).queued_block is None,
            final(self).queued_batches@ == old(self).queued_batches@,
    {
        let b = self.queued_block;
        self.queued_block = None;
        match b {
            Some(h) => h == hash,
            None => false,
        }
    }

    /// The next batch after a block was finalized.
    pub fn next_batch(&mut self) -> (r: Option<T>)
        ensures
            final(self).pending_batch == old(self).pending_batch,
            final(self).queued_block == old(self).queued_block,
            old(self).queued_batches@.len() == 0 ==> r is None && final(self).queued_batches@.len()
                == 0,
            old(self).queued_batches@.len() > 0 ==> r == Some(old(self).queued_batches@[0])
                && final(self).queued_batches@ == old(self).queued_batches@.drop_first(),
    {
        self.queued_batches.pop_front()
    }

    /// Records the block built from a batch, to await finalization.
    pub fn set_queued_block(&mut self, hash: u64)
        ensures
            final(self).pending_batch == old(self).pending_batch,
            final(self).queued_block == Some(hash),
            final(self).queued_batches@ == old(self).queued_batches@,
    {
        self.queued_block = Some(hash);
    }
}

/// The validator sets this node voted for, among a block's logs.
pub open spec fn own_votes(logs: Seq<LogView>, self_id: u64) -> Seq<Seq<u64>>
    decreases logs.len(),
{
    if logs.len() == 0 {
        Seq::empty()
    } else {
        match logs.last() {
            LogView::VoteChangeSet(who, set) => if who == self_id {
                own_votes(logs.drop_last(), self_id).push(set)
            } else {
                own_votes(logs.drop_last(), self_id)
            },
            _ => own_votes(logs.drop_last(), self_id),
        }
    }
}

/// The sets this node voted for in a finalized block's logs, in order: the
/// votes to register with the runtime.
pub fn extract_votes(logs: &Vec<ConsensusLog>, self_id: u64) -> (r: Vec<Vec<u64>>)
    ensures
        r@.map_values(|v: Vec<u64>| v@) == own_votes(logs@.map_values(|l: ConsensusLog| l@), self_id),
{
    let ghost lv = logs@.map_values(|l: ConsensusLog| l@);
    let mut r: Vec<Vec<u64>> = Vec::new();
    let mut i: usize = 0;
    while i < logs.len()
        invariant
            0 <= i <= logs@.len(),
            lv == logs@.map_values(|l: ConsensusLog| l@),
            r@.map_values(|v: Vec<u64>| v@) == own_votes(lv.take(i as int), self_id),
        decreases logs@.len() - i,
    {
        proof {
            assert(lv.take(i + 1).drop_last() =~= lv.take(i as int));
            assert(lv.take(i + 1).last() == logs@[i as int]@);
        }
        match &logs[i] {
            ConsensusLog::VoteChangeSet(who, set) => {
                if *who == self_id {
                    let ghost r0 = r@;
                    let mut copy: Vec<u64> = Vec::new();
                    let mut k: usize = 0;
                    while k < set.len()
                        invariant
                            0 <= k <= set@.len(),
                            copy@ == set@.take(k as int),
                        decreases set@.len() - k,
                    {
                        copy.push(set[k]);
                        proof {
                            assert(set@.take(k + 1) =~= set@.take(k as int).push(set@[k as int]));
                        }
                        k = k + 1;
                    }
                    assert(set@.take(k as int) =~= set@);
                    r.push(copy);
                    proof {
                        assert(r@.map_values(|v: Vec<u64>| v@) =~= r0.map_values(|v: Vec<u64>| v@).push(
                            set@,
                        ));
                    }
                }
            },
            _ => {},
        }
        i = i + 1;
    }
    assert(lv.take(i as int) =~= lv);
    r
}

/// What becomes of a block that arrived from another node together with
/// its full justification.
#[derive(Clone, Copy, Debug, PartialEq, Eq, Structural)]
pub enum ExternalBlockPlan {
    /// It is not our next block or its justification does not verify:
    /// nothing changes.
    Ignore,
    /// Our queued block was another one: it is dropped with its batch, and
    /// the arriving block, which has no body, is not imported.
    DropQueued,
    /// The block is finalized. `requeue`: our queued block was another one,
    /// and its batch is built again once this block is final. `adopt`: the
    /// arriving block becomes the queued block before finalization.
    Finalize { requeue: bool, adopt: bool },
}

/// The plan for an arriving block numbered `number` with hash `hash`, given
/// our best block number, whether its justification verifies, the hash of
/// our queued block, and whether the block has a body.
pub open spec fn external_block_plan_spec(
    number: u64,
    best_number: u64,
    justified: bool,
    queued: Option<u64>,
    hash: u64,
    has_body: bool,
) -> ExternalBlockPlan {
    let requeue = queued is Some && queued.unwrap() != hash;
    if number != best_number + 1 || !justified {
        ExternalBlockPlan::Ignore
    } else if !has_body {
        if requeue {
            ExternalBlockPlan::DropQueued
        } else {
            ExternalBlockPlan::Ignore
        }
    } else {
        ExternalBlockPlan::Finalize { requeue, adopt: requeue || queued is None }
    }
}

/// Decides on a block that arrived from another node. A queued block
/// always has its batch pending, which a requeue takes back.
pub fn plan_external_block(
    number: u64,
    best_number: u64,
    justified: bool,
    queued: Option<u64>,
    batch_pending: bool,
    hash: u64,
    has_body: bool,
) -> (r: ExternalBlockPlan)
    requires
        best_number < u64::MAX,
        queued matches Some(q) && q != hash ==> batch_pending,
    ensures
        r == external_block_plan_spec(number, best_number, justified, queued, hash, has_body),
{
    if number != best_number + 1 || !justified {
        return ExternalBlockPlan::Ignore;
    }
    let requeue = match queued {
        Some(q) => q != hash,
        None => false,
    };
    if !has_body {
        return if requeue {
            ExternalBlockPlan::DropQueued
        } else {
            ExternalBlockPlan::Ignore
        };
    }
    ExternalBlockPlan::Finalize { requeue, adopt: requeue || queued.is_none() }
}

/// What becomes of the block awaiting finalization once a block was
/// imported at its height or above.
#[derive(Clone, Copy, Debug, PartialEq, Eq, Structural)]
pub enum ImportedBlockPlan {
    /// No block awaits finalization: nothing changes.
    Nothing,
    /// The imported block is our queued block: its batch is done with and
    /// the next batch is taken.
    Continue,
    /// Another block was imported: our queued block's batch is built into a
    /// block again, on top of it.
    Rebuild,
}

/// Decides on a block numbered `number` with hash `hash` that was imported,
/// given our queued block as (number, hash). An import below the queued
/// block, or a queued block without its batch, cannot happen.
pub fn plan_imported_block(
    queued: Option<(u64, u64)>,
    batch_pending: bool,
    number: u64,
    hash: u64,
) -> (r: ImportedBlockPlan)
    requires
        queued matches Some(q) ==> number >= q.0,
        queued matches Some(q) && q.1 != hash ==> batch_pending,
    ensures
        r == match queued {
            None => ImportedBlockPlan::Nothing,
            Some(q) => if q.1 == hash {
                ImportedBlockPlan::Continue
            } else {
                ImportedBlockPlan::Rebuild
            },
        },
{
    match queued {
        None => ImportedBlockPlan::Nothing,
        Some(q) => if q.1 == hash {
            ImportedBlockPlan::Continue
        } else {
            ImportedBlockPlan::Rebuild
        },
    }
}

/// Where a block to import came from.
#[derive(Clone, Copy, Debug, PartialEq, Eq, Structural)]
pub enum BlockOrigin {
    Genesis,
    NetworkInitialSync,
    NetworkBroadcast,
    ConsensusBroadcast,
    Own,
    File,
}

/// What the block import does with a block.
#[derive(Clone, Copy, Debug, PartialEq, Eq, Structural)]
pub enum ImportRoute {
    /// Nothing is imported; the block counts as already in the chain.
    AlreadyInChain,
    /// A justified block from the network: it is handed on to be finalized
    /// by consensus, and counts as already in the chain.
    Forward,
    /// The block is imported into the chain.
    Import,
}

/// The route of a block: blocks already in the chain stay there; only the
/// genesis block and our own blocks are imported; justified network blocks
/// are handed to consensus; everything else is ignored.
pub open spec fn import_route_spec(in_chain: bool, origin: BlockOrigin, justified: bool) -> ImportRoute {
    if in_chain {
        ImportRoute::AlreadyInChain
    } else {
        match origin {
            BlockOrigin::Genesis | BlockOrigin::Own => ImportRoute::Import,
            BlockOrigin::NetworkInitialSync | BlockOrigin::NetworkBroadcast => if justified {
                ImportRoute::Forward
            } else {
                ImportRoute::AlreadyInChain
            },
            BlockOrigin::ConsensusBroadcast | BlockOrigin::File => ImportRoute::AlreadyInChain,
        }
    }
}

/// Decides how to import a block, given whether it is already in the
/// chain, where it came from and whether it carries a justification.
pub fn import_route(in_chain: bool, origin: BlockOrigin, justified: bool) -> (r: ImportRoute)
    ensures
        r == import_route_spec(in_chain, origin, justified),
{
    if in_chain {
        return ImportRoute::AlreadyInChain;
    }
    match origin {
        BlockOrigin::Genesis | BlockOrigin::Own => ImportRoute::Import,
        BlockOrigin::NetworkInitialSync | BlockOrigin::NetworkBroadcast => {
            if justified {
                ImportRoute::Forward
            } else {
                ImportRoute::AlreadyInChain
            }
        },
        BlockOrigin::ConsensusBroadcast | BlockOrigin::File => ImportRoute::AlreadyInChain,
    }
}

/// A block already in the chain is neither imported nor handed on; of the
/// others, exactly the genesis block and our own blocks are imported, and
/// exactly the justified blocks from the network (during initial sync or
/// broadcast) are handed to consensus to be finalized.
pub proof fn lemma_import_routes(in_chain: bool, origin: BlockOrigin, justified: bool)
    ensures
        (import_route_spec(in_chain, origin, justified) == ImportRoute::Import) <==> (!in_chain && (
        origin == BlockOrigin::Genesis || origin == BlockOrigin::Own)),
        (import_route_spec(in_chain, origin, justified) == ImportRoute::Forward) <==> (!in_chain
            && justified && (origin == BlockOrigin::NetworkInitialSync || origin
            == BlockOrigin::NetworkBroadcast)),
{
}

/// A justified block from the network that is not yet in the chain is
/// handed to consensus, whether it came during initial sync or as a
/// broadcast.
pub proof fn lemma_justified_network_block_forwarded(origin: BlockOrigin)
    requires
        origin == BlockOrigin::NetworkInitialSync || origin == BlockOrigin::NetworkBroadcast,
    ensures
        import_route_spec(false, origin, true) == ImportRoute::Forward,
{
}

/// Only the block right after our best block, with a justification that
/// verifies, is taken from another node: a block at any other height is
/// ignored.
pub proof fn lemma_only_next_block_taken(
    number: u64,
    best_number: u64,
    justified: bool,
    queued: Option<u64>,
    hash: u64,
    has_body: bool,
)
    ensures
        external_block_plan_spec(number, best_number, justified, queued, hash, has_body)
            != ExternalBlockPlan::Ignore ==> number == best_number + 1 && justified,
        number != best_number + 1 ==> external_block_plan_spec(
            number,
            best_number,
            justified,
            queued,
            hash,
            has_body,
        ) == ExternalBlockPlan::Ignore,
{
}

} // verus!
