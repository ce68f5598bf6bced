use badger_chain::consensus::{
    age_delayed_justifications, gossip_verdict, message_expired, contains_id, is_justification_expired, is_sync_complete,
    justification_complete, process_justification, process_sync_message, queue_transaction,
    record_delayed_justification, record_sync, session_verdict, verify_full_justification,
    BadgerAuthCommit, BadgerState, BadgerStateMachine, Decision, FollowUp, BadgerFullJustification,
    GossipMessage, BadgerJustification, JustificationCollector, KeptMessage, QueueError, BadgerSyncData, BadgerSyncGossip,
    ValidationResult, ValidatorSync, VoteError, MAX_QUEUE_LEN,
};
use badger_chain::peers::Peers;

fn just(hash: u64, validator: u64) -> BadgerJustification {
    BadgerJustification { hash, validator, sgn: vec![validator as u8] }
}

fn sync_data(num: u64, hash: u64, signers: &[u64]) -> BadgerSyncData {
    BadgerSyncData {
        num,
        justification: BadgerFullJustification {
            hash,
            commits: signers.iter().map(|v| BadgerAuthCommit { validator: *v, sgn: vec![] }).collect(),
        },
    }
}

fn machine(phase: BadgerState) -> BadgerStateMachine {
    BadgerStateMachine {
        phase,
        set_id: 1,
        authorities: vec![10, 20],
        self_id: 10,
        my_auth_id: 10,
        my_peer_id: 100,
        peers: Peers::new(),
        queued_transactions: vec![],
        justification_collector: vec![],
        delayed_justifications: vec![],
        sync_validators: vec![],
        queued_block: None,
        queued_messages: vec![],
    }
}

fn d(result: ValidationResult, repropagate: bool, next: FollowUp) -> Decision {
    Decision { result, repropagate, next }
}

#[test]
fn quorum_is_all_but_tolerated_faulty() {
    assert!(justification_complete(4, 3));
    assert!(!justification_complete(4, 2));
    assert!(justification_complete(1, 1));
    assert!(!justification_complete(1, 0));
    assert!(justification_complete(7, 5));
    assert!(!justification_complete(7, 4));
}

#[test]
fn session_verdicts() {
    assert_eq!(session_verdict(5, 5), (ValidationResult::Discard, false));
    assert_eq!(session_verdict(4, 5), (ValidationResult::Punish(0), false));
    assert_eq!(session_verdict(6, 5), (ValidationResult::Discard, true));
    assert_eq!(session_verdict(8, 5), (ValidationResult::Discard, false));
}

#[test]
fn full_justification_needs_window_signatures_and_quorum() {
    let auths = vec![1, 2, 3, 4];
    assert!(verify_full_justification(&sync_data(10, 7, &[1, 2, 3]), 10, true, &auths));
    assert!(verify_full_justification(&sync_data(11, 7, &[4, 2, 3]), 10, true, &auths));
    assert!(verify_full_justification(&sync_data(9, 7, &[1, 2, 3, 4]), 10, true, &auths));
    assert!(!verify_full_justification(&sync_data(10, 7, &[1, 2]), 10, true, &auths));
    // commits by strangers do not count
    assert!(!verify_full_justification(&sync_data(10, 7, &[1, 2, 9]), 10, true, &auths));
    assert!(!verify_full_justification(&sync_data(12, 7, &[1, 2, 3]), 10, true, &auths));
    assert!(!verify_full_justification(&sync_data(8, 7, &[1, 2, 3]), 10, true, &auths));
    assert!(!verify_full_justification(&sync_data(10, 7, &[1, 2, 3]), 10, false, &auths));
}

#[test]
fn delayed_justifications_age_and_expire() {
    let mut delayed = vec![(0, just(1, 1)), (9, just(2, 2)), (3, just(3, 3))];
    age_delayed_justifications(&mut delayed);
    let ages: Vec<(u64, u64)> = delayed.iter().map(|(a, j)| (*a, j.hash)).collect();
    assert_eq!(ages, vec![(1, 1), (4, 3)]);
}

#[test]
fn delayed_justification_is_held_once() {
    let mut delayed = vec![];
    assert!(!record_delayed_justification(&mut delayed, just(5, 1)));
    assert!(record_delayed_justification(&mut delayed, just(5, 1)));
    assert!(!record_delayed_justification(&mut delayed, just(5, 2)));
    assert_eq!(delayed.len(), 2);
    assert_eq!(delayed[1].0, 0);
}

#[test]
fn justification_expiry() {
    assert!(is_justification_expired(None, 3));
    assert!(is_justification_expired(Some(4), 10));
    assert!(!is_justification_expired(Some(5), 10));
    assert!(!is_justification_expired(Some(12), 10));
}

#[test]
fn collector_takes_one_justification_per_authority() {
    let mut c = JustificationCollector { contemp_auth: Some(vec![1, 2]), justification: vec![] };
    process_justification(just(7, 1), &mut c);
    process_justification(just(7, 1), &mut c);
    process_justification(just(7, 3), &mut c);
    process_justification(just(7, 2), &mut c);
    let v: Vec<u64> = c.justification.iter().map(|j| j.validator).collect();
    assert_eq!(v, vec![1, 2]);
    let mut unknown = JustificationCollector { contemp_auth: None, justification: vec![] };
    process_justification(just(7, 1), &mut unknown);
    assert!(unknown.justification.is_empty());
}

#[test]
fn sync_reports_are_raised_never_lowered() {
    let mut vs: Vec<ValidatorSync> = vec![];
    record_sync(&mut vs, 1, 5, 50);
    record_sync(&mut vs, 1, 4, 40);
    record_sync(&mut vs, 2, 5, 51);
    record_sync(&mut vs, 1, 6, 60);
    let v: Vec<(u64, u64, u64)> = vs.iter().map(|s| (s.id, s.best_block_num, s.best_block_hash)).collect();
    assert_eq!(v, vec![(1, 6, 60), (2, 5, 51)]);
    assert!(!is_sync_complete(6, &vs, 2));
    record_sync(&mut vs, 2, 6, 61);
    assert!(is_sync_complete(6, &vs, 2));
    assert!(!is_sync_complete(6, &vs, 3));
}

#[test]
fn sync_message_counts_only_valid_authority_reports() {
    let auths = vec![1, 2, 3, 4];
    let mut vs: Vec<ValidatorSync> = vec![];
    let good = BadgerSyncGossip { data: sync_data(10, 7, &[1, 2, 3]), source: 1, sgn: vec![] };
    assert!(!process_sync_message(&mut vs, &auths, &good, true, true, 10));
    assert_eq!(vs.len(), 1);
    let stranger = BadgerSyncGossip { data: sync_data(10, 7, &[1, 2, 3]), source: 9, sgn: vec![] };
    process_sync_message(&mut vs, &auths, &stranger, true, true, 10);
    process_sync_message(&mut vs, &auths, &good, false, true, 10);
    let behind = BadgerSyncGossip { data: sync_data(9, 7, &[1, 2, 3]), source: 2, sgn: vec![] };
    process_sync_message(&mut vs, &auths, &behind, true, true, 10);
    assert_eq!(vs.len(), 1);
    for s in 2..5u64 {
        let g = BadgerSyncGossip { data: sync_data(10, 7, &[1, 2, 3]), source: s, sgn: vec![] };
        let done = process_sync_message(&mut vs, &auths, &g, true, true, 10);
        assert_eq!(done, s == 4);
    }
}

#[test]
fn transaction_queue_is_bounded() {
    let mut q: Vec<Vec<u8>> = vec![];
    for i in 0..MAX_QUEUE_LEN {
        assert!(queue_transaction(&mut q, vec![i as u8]).is_ok());
    }
    assert_eq!(queue_transaction(&mut q, vec![1]), Err(QueueError::TooManyQueued));
    assert_eq!(q.len(), MAX_QUEUE_LEN);
}

#[test]
fn contains_id_finds_members() {
    assert!(contains_id(&vec![3, 4], 4));
    assert!(!contains_id(&vec![3, 4], 5));
}

#[test]
fn keygen_data_from_unknown_authority_waits() {
    let m = machine(BadgerState::KeyGen);
    assert_eq!(m.on_keygen_data(20, true), d(ValidationResult::Discard, true, FollowUp::Nothing));
    // our own key maps to our own peer
    assert_eq!(m.on_keygen_data(10, true), d(ValidationResult::Discard, false, FollowUp::ProcessKeygen(100)));
    assert_eq!(m.on_keygen_data(10, false), d(ValidationResult::Punish(-2), false, FollowUp::Nothing));
    let w = machine(BadgerState::AwaitingValidators);
    assert_eq!(w.on_keygen_data(10, true), d(ValidationResult::Discard, true, FollowUp::Nothing));
    let b = machine(BadgerState::Badger);
    assert_eq!(b.on_keygen_data(10, true), d(ValidationResult::Discard, false, FollowUp::Nothing));
}

#[test]
fn badger_data_decisions_by_phase() {
    assert_eq!(
        machine(BadgerState::Badger).on_badger_data(10, true),
        d(ValidationResult::Discard, false, FollowUp::HandleBadger(100))
    );
    assert_eq!(
        machine(BadgerState::Badger).on_badger_data(10, false),
        d(ValidationResult::Discard, false, FollowUp::Nothing)
    );
    assert_eq!(
        machine(BadgerState::KeyGen).on_badger_data(10, true),
        d(ValidationResult::Discard, true, FollowUp::Nothing)
    );
    assert_eq!(
        machine(BadgerState::InitialSync).on_badger_data(10, true),
        d(ValidationResult::Punish(-1), false, FollowUp::Nothing)
    );
}

#[test]
fn session_announcement_maps_peer_and_starts_keygen() {
    let mut m = machine(BadgerState::AwaitingValidators);
    let r = m.on_session(1, 20, 200);
    assert_eq!(r, d(ValidationResult::Discard, false, FollowUp::ProceedToKeygen));
    assert_eq!(m.peers.badgerid_to_peerid(20), Some(200));
    let mut m = machine(BadgerState::AwaitingValidators);
    assert_eq!(m.on_session(2, 20, 200), d(ValidationResult::Discard, true, FollowUp::Nothing));
    assert_eq!(m.peers.badgerid_to_peerid(20), None);
    assert_eq!(m.on_session(0, 20, 200), d(ValidationResult::Punish(0), false, FollowUp::Nothing));
}

#[test]
fn early_message_is_queued_and_replayed_later() {
    let mut m = machine(BadgerState::KeyGen);
    let (first, rp) = m.process_and_replay(Some(GossipMessage::KeygenData { originator: 20, decoded: true }));
    assert_eq!(first, d(ValidationResult::Discard, true, FollowUp::Nothing));
    assert!(rp.is_none());
    assert_eq!(m.queued_messages.len(), 1);

    let (first, rp) = m.process_and_replay(Some(GossipMessage::Session { ses_id: 1, session_key: 20, peer_id: 200 }));
    assert_eq!(first, d(ValidationResult::Discard, false, FollowUp::Nothing));
    let mut rp = rp.unwrap();
    assert_eq!(rp.pending.len(), 1);
    assert!(m.queued_messages.is_empty());
    assert_eq!(m.replay_next(&mut rp), Some(d(ValidationResult::Discard, false, FollowUp::ProcessKeygen(200))));
    assert_eq!(m.replay_next(&mut rp), None);
    assert!(rp.finished);
    assert!(m.queued_messages.is_empty());
    assert_eq!(m.replay_next(&mut rp), None);
}

#[test]
fn message_still_early_stays_queued_after_replay() {
    let mut m = machine(BadgerState::KeyGen);
    let sync = BadgerSyncGossip { data: sync_data(0, 1, &[]), source: 20, sgn: vec![] };
    let msg = GossipMessage::SyncGossip { sync, signature_valid: true, justification_valid: true, our_best: 0 };
    let (first, rp) = m.process_and_replay(Some(msg));
    assert_eq!(first, d(ValidationResult::Discard, true, FollowUp::Nothing));
    assert!(rp.is_none());
    // a message that did not decode still triggers a replay
    let (first, rp) = m.process_and_replay(None);
    assert_eq!(first, d(ValidationResult::Discard, false, FollowUp::Nothing));
    let mut rp = rp.unwrap();
    assert_eq!(m.replay_next(&mut rp), None);
    assert_eq!(rp.rounds, 1);
    assert_eq!(m.queued_messages.len(), 1);
}

#[test]
fn justification_without_collector_is_delayed() {
    let mut m = machine(BadgerState::Badger);
    let r = m.process_decoded_message(GossipMessage::JustificationData {
        just: just(5, 20),
        signature_valid: true,
        header_number: None,
        finalized_number: 0,
    });
    assert_eq!(r, d(ValidationResult::Discard, false, FollowUp::Nothing));
    assert_eq!(m.delayed_justifications.len(), 1);
    let r = m.on_justification(just(5, 20), false, None, 0);
    assert_eq!(r, d(ValidationResult::Punish(-8), false, FollowUp::Nothing));
    // a block finalized long ago
    let r = m.on_justification(just(6, 20), true, Some(1), 3);
    assert_eq!(r, d(ValidationResult::Discard, false, FollowUp::Nothing));
    assert_eq!(m.delayed_justifications.len(), 1);
}

#[test]
fn collected_quorum_completes_justification() {
    let mut m = machine(BadgerState::Badger);
    m.authorities = vec![10, 20, 30, 40];
    m.justification_collector = vec![(
        5,
        JustificationCollector { contemp_auth: Some(vec![10, 20, 30, 40]), justification: vec![] },
    )];
    m.delayed_justifications = vec![(9, just(8, 20)), (2, just(9, 20))];
    for v in [10u64, 20] {
        let r = m.on_justification(just(5, v), true, Some(3), 1);
        assert_eq!(r, d(ValidationResult::Discard, false, FollowUp::CheckJustification(5)));
    }
    assert!(m.check_justification_completion(5).is_none());
    m.on_justification(just(5, 30), true, Some(3), 1);
    let full = m.check_justification_completion(5).unwrap();
    assert_eq!(full.hash, 5);
    let signers: Vec<u64> = full.commits.iter().map(|c| c.validator).collect();
    assert_eq!(signers, vec![10, 20, 30]);
    assert!(m.justification_collector[0].1.justification.is_empty());
    let ages: Vec<(u64, u64)> = m.delayed_justifications.iter().map(|(a, j)| (*a, j.hash)).collect();
    assert_eq!(ages, vec![(3, 9)]);
}

#[test]
fn own_justification_gathers_held_back_ones() {
    let mut m = machine(BadgerState::Badger);
    m.authorities = vec![10, 20, 30, 40];
    m.delayed_justifications = vec![(1, just(5, 20)), (0, just(6, 30)), (2, just(5, 99)), (3, just(5, 20))];
    assert_eq!(m.initiate_block_justification(5, just(5, 10), vec![10, 20, 30, 40]), Some(true));
    let c = &m.justification_collector[0].1;
    assert_eq!(c.contemp_auth, Some(vec![10, 20, 30, 40]));
    let signers: Vec<u64> = c.justification.iter().map(|j| j.validator).collect();
    assert_eq!(signers, vec![20, 10]);
    let held: Vec<(u64, u64)> = m.delayed_justifications.iter().map(|(a, j)| (*a, j.hash)).collect();
    assert_eq!(held, vec![(0, 6)]);
    assert!(m.check_justification_completion(5).is_none());
    m.on_justification(just(5, 30), true, None, 0);
    assert!(m.check_justification_completion(5).is_some());
    m.remove_collector(5);
    assert!(m.justification_collector.is_empty());
}

#[test]
fn collector_without_authorities_is_left_alone() {
    let mut m = machine(BadgerState::Badger);
    m.justification_collector = vec![(7, JustificationCollector { contemp_auth: None, justification: vec![] })];
    assert_eq!(m.initiate_block_justification(7, just(7, 10), vec![10]), None);
    assert!(m.justification_collector[0].1.justification.is_empty());
    let mut observer = machine(BadgerState::Badger);
    observer.self_id = 99;
    assert_eq!(observer.initiate_block_justification(8, just(8, 99), vec![10, 20]), Some(false));
    // our own signature does not count where we are no authority
    assert!(observer.justification_collector[0].1.justification.is_empty());
}

#[test]
fn kept_messages_expire() {
    assert!(message_expired(&None, 3));
    assert!(message_expired(&Some(KeptMessage::Other), 3));
    assert!(!message_expired(&Some(KeptMessage::Session { ses_id: 3, topic_matches: true }), 3));
    assert!(message_expired(&Some(KeptMessage::Session { ses_id: 2, topic_matches: true }), 3));
    assert!(message_expired(&Some(KeptMessage::Session { ses_id: 4, topic_matches: false }), 3));
    let j = |topic_matches, header_number| KeptMessage::BadgerJustification { topic_matches, header_number, finalized_number: 10 };
    assert!(!message_expired(&Some(j(true, Some(5))), 3));
    assert!(message_expired(&Some(j(true, Some(4))), 3));
    assert!(message_expired(&Some(j(true, None)), 3));
    assert!(message_expired(&Some(j(false, Some(9))), 3));
}

#[test]
fn votes_are_keyed_by_announcing_peer() {
    let mut m = machine(BadgerState::Badger);
    m.peers.update_id(300, 30);
    m.peers.update_id(200, 20);
    assert_eq!(m.vote_for_validators(&vec![30, 20]), Ok(vec![(200, 20), (300, 30)]));
    assert_eq!(m.vote_for_validators(&vec![30, 40]), Err(VoteError::MissingNodeId));
    m.phase = BadgerState::KeyGen;
    assert_eq!(m.vote_for_validators(&vec![30]), Err(VoteError::InvalidState));
    assert_eq!(m.vote_for_validators(&vec![40]), Err(VoteError::MissingNodeId));
    assert_eq!(VoteError::MissingNodeId.as_str(), "Missing NodeId");
    assert_eq!(VoteError::InvalidState.as_str(), "Invalid state");
}

#[test]
fn new_machine_awaits_validators() {
    let m = BadgerStateMachine::new(2, vec![10, 20], 10, 100);
    assert_eq!(m.phase, BadgerState::AwaitingValidators);
    assert_eq!((m.set_id, m.self_id, m.my_auth_id, m.my_peer_id), (2, 10, 10, 100));
    assert!(m.is_authority_exec());
    assert!(m.queued_messages.is_empty() && m.delayed_justifications.is_empty());
    assert!(!BadgerStateMachine::new(2, vec![20], 10, 100).is_authority_exec());
}

#[test]
fn validator_change_moves_to_next_set() {
    let mut m = machine(BadgerState::Badger);
    let r = m.update_validators(&vec![(101, 30), (102, 10), (103, 40)]);
    assert!(matches!(r, Some(GossipMessage::Session { ses_id: 2, session_key: 10, peer_id: 100 })));
    assert_eq!(m.set_id, 2);
    assert_eq!(m.authorities, vec![30, 10, 40]);
    assert_eq!(m.phase, BadgerState::Badger);
}

#[test]
fn validator_change_outside_consensus_is_ignored() {
    let mut m = machine(BadgerState::KeyGen);
    assert!(m.update_validators(&vec![(101, 30)]).is_none());
    assert_eq!(m.set_id, 1);
    assert_eq!(m.authorities, vec![10, 20]);
}

#[test]
fn last_kept_message_decides_the_verdict() {
    assert_eq!(gossip_verdict(&vec![]), ValidationResult::Discard);
    assert_eq!(
        gossip_verdict(&vec![(ValidationResult::Maintain(3), true), (ValidationResult::Discard, true)]),
        ValidationResult::Maintain(3)
    );
    assert_eq!(
        gossip_verdict(&vec![
            (ValidationResult::Maintain(3), true),
            (ValidationResult::Maintain(4), false),
            (ValidationResult::Maintain(5), true),
            (ValidationResult::Punish(2), true),
        ]),
        ValidationResult::Maintain(5)
    );
    assert_eq!(gossip_verdict(&vec![(ValidationResult::Maintain(4), false)]), ValidationResult::Discard);
}

#[test]
fn transactions_wait_until_consensus_runs() {
    let mut m = machine(BadgerState::KeyGen);
    assert_eq!(m.push_transaction(vec![1]), Ok(None));
    assert_eq!(m.push_transaction(vec![2]), Ok(None));
    assert_eq!(m.queued_transactions, vec![vec![1], vec![2]]);
    let waiting = m.proceed_to_badger();
    assert_eq!(waiting, vec![vec![1], vec![2]]);
    assert!(m.queued_transactions.is_empty());
    assert_eq!(m.phase, BadgerState::Badger);
    assert_eq!(m.push_transaction(vec![3]), Ok(Some(vec![3])));
    assert!(m.queued_transactions.is_empty());
}

#[test]
fn full_transaction_queue_refuses() {
    let mut m = machine(BadgerState::InitialSync);
    for i in 0..MAX_QUEUE_LEN {
        assert_eq!(m.push_transaction(vec![(i % 256) as u8]), Ok(None));
    }
    assert_eq!(m.push_transaction(vec![9]), Err(QueueError::TooManyQueued));
    assert_eq!(m.queued_transactions.len(), MAX_QUEUE_LEN);
}

#[test]
fn sync_starts_from_best_block() {
    let mut m = machine(BadgerState::AwaitingValidators);
    let genesis = m.proceed_to_sync(0, 55, None);
    assert_eq!(m.phase, BadgerState::InitialSync);
    assert_eq!(genesis.num, 0);
    assert_eq!(genesis.justification.hash, 55);
    assert!(genesis.justification.commits.is_empty());
    let later = m.proceed_to_sync(7, 70, Some(sync_data(7, 70, &[10, 20]).justification));
    assert_eq!(later.num, 7);
    assert_eq!(later.justification.hash, 70);
    assert_eq!(later.justification.commits.len(), 2);
}

#[test]
fn keygen_starts_with_our_part() {
    let mut m = machine(BadgerState::InitialSync);
    let (sk1, sk2) = (hbbft::crypto::SecretKey::random(), hbbft::crypto::SecretKey::random());
    let pub_keys = vec![(100u64, sk1.public_key()), (200u64, sk2.public_key())];
    let mut rng = rand::rngs::OsRng::new().unwrap();
    let (state, msgs) = m.proceed_to_keygen(sk1, pub_keys, false, &mut rng).unwrap();
    assert_eq!(m.phase, BadgerState::KeyGen);
    assert_eq!(state.threshold, 0);
    assert!(!msgs.is_empty());
    assert!(matches!(msgs.last(), Some(badger_chain::keygen::SyncKeyGenMessage::Part(_))));
}

#[test]
fn observer_makes_no_part() {
    let mut m = machine(BadgerState::InitialSync);
    let (sk1, sk2) = (hbbft::crypto::SecretKey::random(), hbbft::crypto::SecretKey::random());
    let pub_keys = vec![(200u64, sk2.public_key())];
    let mut rng = rand::rngs::OsRng::new().unwrap();
    let (_, msgs) = m.proceed_to_keygen(sk1, pub_keys, true, &mut rng).unwrap();
    assert!(msgs.is_empty());
    assert_eq!(m.phase, BadgerState::KeyGen);
}
