use badger_chain::blocks::{
    extract_votes, import_route, plan_external_block, plan_imported_block, BlockOrigin, ImportRoute, BatchBlockMechanics, BatchStep, PreFinalizeStep, BlockPacker, BlockPushResult,
    ExternalBlockPlan, ImportedBlockPlan, PackOutcome,
};
use badger_chain::validators::ConsensusLog;

#[test]
fn packer_requeues_once_block_is_full() {
    let mut p = BlockPacker::new();
    // too large for an empty block: dropped, packing goes on
    assert_eq!(p.after_push(BlockPushResult::BlockFull), PackOutcome::Next);
    assert!(!p.skips());
    assert_eq!(p.after_push(BlockPushResult::Pushed), PackOutcome::Next);
    assert_eq!(p.after_push(BlockPushResult::InvalidData), PackOutcome::Next);
    assert_eq!(p.after_push(BlockPushResult::BlockError), PackOutcome::Next);
    assert_eq!(p.cnt, 1);
    assert_eq!(p.after_push(BlockPushResult::BlockFull), PackOutcome::Requeue);
    assert!(p.skips());
    assert_eq!(p.cnt, 1);
}

#[test]
fn batches_wait_while_a_block_is_queued() {
    let mut q: BatchBlockMechanics<&str> = BatchBlockMechanics::new();
    assert_eq!(q.consume_batch(Some("a")), Some("a"));
    q.set_queued_block(11);
    assert_eq!(q.consume_batch(Some("b")), None);
    assert_eq!(q.consume_batch(Some("c")), None);
    assert_eq!(q.consume_batch(None), None);
    assert!(!q.take_block(12));
    assert_eq!(q.queued_block, None);
    q.set_queued_block(13);
    assert!(q.take_block(13));
    assert_eq!(q.next_batch(), Some("b"));
    assert_eq!(q.consume_batch(None), Some("c"));
    assert_eq!(q.next_batch(), None);
    assert_eq!(q.consume_batch(None), None);
}

#[test]
fn own_votes_are_extracted_in_order() {
    let logs = vec![
        ConsensusLog::VoteChangeSet(7, vec![1, 2]),
        ConsensusLog::VoteToAdd(3),
        ConsensusLog::VoteChangeSet(8, vec![9]),
        ConsensusLog::NotifyChangedSet(vec![4]),
        ConsensusLog::VoteChangeSet(7, vec![3]),
    ];
    assert_eq!(extract_votes(&logs, 7), vec![vec![1, 2], vec![3]]);
    assert_eq!(extract_votes(&logs, 5), Vec::<Vec<u64>>::new());
}

#[test]
fn external_block_plans() {
    // not the next block
    assert_eq!(plan_external_block(7, 5, true, None, false, 1, true), ExternalBlockPlan::Ignore);
    // justification does not verify
    assert_eq!(plan_external_block(6, 5, false, None, false, 1, true), ExternalBlockPlan::Ignore);
    // nothing queued: the block is adopted
    assert_eq!(
        plan_external_block(6, 5, true, None, false, 1, true),
        ExternalBlockPlan::Finalize { requeue: false, adopt: true }
    );
    // our queued block is that block
    assert_eq!(
        plan_external_block(6, 5, true, Some(1), true, 1, true),
        ExternalBlockPlan::Finalize { requeue: false, adopt: false }
    );
    // our queued block lost: its batch is built again
    assert_eq!(
        plan_external_block(6, 5, true, Some(2), true, 1, true),
        ExternalBlockPlan::Finalize { requeue: true, adopt: true }
    );
    assert_eq!(plan_external_block(6, 5, true, Some(2), true, 1, false), ExternalBlockPlan::DropQueued);
    assert_eq!(plan_external_block(6, 5, true, Some(1), true, 1, false), ExternalBlockPlan::Ignore);
}

#[test]
fn imported_block_decides_on_queued_block() {
    assert_eq!(plan_imported_block(None, false, 5, 77), ImportedBlockPlan::Nothing);
    assert_eq!(plan_imported_block(Some((5, 77)), true, 5, 77), ImportedBlockPlan::Continue);
    assert_eq!(plan_imported_block(Some((5, 77)), true, 5, 78), ImportedBlockPlan::Rebuild);
    assert_eq!(plan_imported_block(Some((5, 77)), true, 6, 78), ImportedBlockPlan::Rebuild);
}

#[test]
fn block_import_routes_by_origin() {
    assert_eq!(import_route(true, BlockOrigin::Own, true), ImportRoute::AlreadyInChain);
    assert_eq!(import_route(false, BlockOrigin::Own, false), ImportRoute::Import);
    assert_eq!(import_route(false, BlockOrigin::Genesis, false), ImportRoute::Import);
    assert_eq!(import_route(false, BlockOrigin::NetworkBroadcast, true), ImportRoute::Forward);
    assert_eq!(import_route(false, BlockOrigin::NetworkInitialSync, false), ImportRoute::AlreadyInChain);
    assert_eq!(import_route(false, BlockOrigin::ConsensusBroadcast, true), ImportRoute::AlreadyInChain);
    assert_eq!(import_route(false, BlockOrigin::File, true), ImportRoute::AlreadyInChain);
}

#[test]
fn batch_becomes_block_awaiting_justification() {
    let mut q: BatchBlockMechanics<&str> = BatchBlockMechanics::new();
    assert!(matches!(q.batch_to_block("a", None, &vec![1, 2]), BatchStep::Nothing));
    assert_eq!(q.pending_batch, Some("a"));
    assert_eq!(q.queued_block, None);
    match q.batch_to_block("b", Some(40), &vec![1, 2]) {
        BatchStep::EmitJustification(h, auths) => {
            assert_eq!(h, 40);
            assert_eq!(auths, vec![1, 2]);
        }
        BatchStep::Nothing => panic!("expected a justification"),
    }
    assert_eq!(q.pending_batch, Some("b"));
    assert_eq!(q.queued_block, Some(40));
}

#[test]
fn finalizing_the_queued_block_announces_it_and_moves_on() {
    let logs = vec![ConsensusLog::VoteChangeSet(7, vec![1, 2]), ConsensusLog::VoteChangeSet(8, vec![9])];
    let mut q: BatchBlockMechanics<&str> = BatchBlockMechanics::new();
    q.set_queued_block(40);
    assert!(matches!(q.pre_finalize(41, true, 5, &logs, 7), PreFinalizeStep::Nothing));
    assert_eq!(q.queued_block, None);
    q.set_queued_block(40);
    assert!(matches!(q.pre_finalize(40, false, 5, &logs, 7), PreFinalizeStep::Nothing));
    q.set_queued_block(40);
    match q.pre_finalize(40, true, 5, &logs, 7) {
        PreFinalizeStep::Completed { announce, votes } => {
            assert_eq!(announce, 5);
            assert_eq!(votes, vec![vec![1, 2]]);
        }
        _ => panic!("expected completion"),
    }
    assert_eq!(q.consume_batch(Some("x")), Some("x"));
    assert_eq!(q.consume_batch(Some("y")), Some("y"));
    q.set_queued_block(50);
    assert_eq!(q.consume_batch(Some("z")), None);
    match q.pre_finalize(50, true, 6, &logs, 7) {
        PreFinalizeStep::NextBatch { announce, batch } => {
            assert_eq!(announce, 6);
            assert_eq!(batch, "z");
        }
        _ => panic!("expected the next batch"),
    }
    assert_eq!(q.queued_block, None);
}
