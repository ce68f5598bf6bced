use badger_chain::consensus::ValidationResult;
use badger_chain::gossip::{
    ConsensusGossip, DiscardAll, IncomingOutcome, IncomingStep, MessageIntent, RoutedMessage,
    RoutingInfo, KNOWN_MESSAGES_CACHE_SIZE, MAX_NUM_SET,
};

const ENGINE: u32 = 7;

fn gossip_with_peers() -> ConsensusGossip {
    let mut g = ConsensusGossip::new(1);
    assert!(g.new_peer(2, true));
    assert!(!g.new_peer(3, false));
    assert!(g.new_peer(4, true));
    assert_eq!(g.register_validator(ENGINE), vec![2, 4]);
    g
}

#[test]
fn broadcast_skips_peers_that_know_the_message() {
    let mut g = gossip_with_peers();
    let (targets, route) = g.broadcast_except(vec![], 5, false, false);
    assert_eq!(targets, vec![2, 4]);
    assert_eq!(route, Vec::<u64>::new());
    let (targets, _) = g.broadcast_except(vec![], 5, false, false);
    assert!(targets.is_empty());
    let (targets, _) = g.broadcast_except(vec![], 5, false, true);
    assert_eq!(targets, vec![2, 4]);
    let (targets, _) = g.broadcast_except(vec![4], 6, false, false);
    assert_eq!(targets, vec![2]);
}

#[test]
fn broadcast_route_grows_with_self_and_targets() {
    let mut g = gossip_with_peers();
    let (targets, route) = g.broadcast_except(vec![9], 5, true, false);
    assert_eq!(targets, vec![2, 4]);
    assert_eq!(route, vec![9, 1, 2, 4]);
    assert_eq!(MAX_NUM_SET, 48);
    let full: Vec<u64> = (100..148).collect();
    let (_, route) = g.broadcast_except(full.clone(), 6, true, false);
    assert_eq!(route, full);
}

#[test]
fn targeted_send_narrows_the_route() {
    let mut g = gossip_with_peers();
    let (targets, route) = g.send_to_set(vec![2, 9], 6, true, false);
    assert_eq!(targets, vec![2]);
    match route {
        RoutingInfo::Targeted(rest) => assert_eq!(rest, vec![9]),
        _ => panic!("expected a targeted route"),
    }
    let (targets, route) = g.send_to_set(vec![4], 7, true, false);
    assert_eq!(targets, vec![4]);
    assert!(matches!(route, RoutingInfo::Specific));
    let (targets, route) = g.send_to_set(vec![4, 2], 8, false, false);
    assert_eq!(targets, vec![2, 4]);
    match route {
        RoutingInfo::Targeted(rest) => assert_eq!(rest, vec![4, 2]),
        _ => panic!("expected a targeted route"),
    }
}

#[test]
fn incoming_messages_are_routed() {
    let mut g = gossip_with_peers();
    assert!(matches!(g.on_incoming(99, 10, None, 11), IncomingStep::Ignore));
    assert!(matches!(g.on_incoming(ENGINE, 10, None, 11), IncomingStep::Malformed));
    let rm = RoutedMessage { route: RoutingInfo::Specific, msg: vec![1, 2] };
    match g.on_incoming(ENGINE, 10, Some(rm), 11) {
        IncomingStep::Validate(d) => assert_eq!(d, vec![1, 2]),
        _ => panic!("expected validation"),
    }
    let rm = RoutedMessage { route: RoutingInfo::Targeted(vec![1, 4]), msg: vec![3] };
    assert!(matches!(g.on_incoming(ENGINE, 12, Some(rm), 13), IncomingStep::Validate(_)));
    let rm = RoutedMessage { route: RoutingInfo::Targeted(vec![4, 9]), msg: vec![3] };
    match g.on_incoming(ENGINE, 14, Some(rm), 15) {
        IncomingStep::Forward(t, RoutingInfo::Targeted(rest)) => {
            assert_eq!(t, vec![4]);
            assert_eq!(rest, vec![9]);
        }
        _ => panic!("expected forwarding"),
    }
}

#[test]
fn maintained_message_is_kept_and_collected() {
    let mut g = gossip_with_peers();
    assert_eq!(
        g.on_validated(2, ENGINE, 20, vec![5, 5], ValidationResult::Maintain(3)),
        IncomingOutcome::Success
    );
    assert_eq!(g.get_kept(3), Some(vec![5, 5]));
    assert_eq!(g.messages_for(ENGINE), vec![vec![5, 5]]);
    assert!(g.messages_for(8).is_empty());
    // a known payload hash is ignored on arrival
    let rm = RoutedMessage { route: RoutingInfo::Specific, msg: vec![5, 5] };
    assert!(matches!(g.on_incoming(ENGINE, 30, Some(rm), 20), IncomingStep::Ignore));
    g.collect_garbage(&vec![4]);
    assert_eq!(g.get_kept(3), Some(vec![5, 5]));
    g.collect_garbage(&vec![3]);
    assert_eq!(g.get_kept(3), None);
}

#[test]
fn validator_verdicts_end_incoming_messages() {
    let mut g = gossip_with_peers();
    assert_eq!(g.on_validated(2, ENGINE, 21, vec![], ValidationResult::Punish(-5)), IncomingOutcome::Punish(-5));
    assert_eq!(g.on_validated(2, ENGINE, 21, vec![], ValidationResult::Discard), IncomingOutcome::Success);
    assert_eq!(g.get_kept(0), None);
}

#[test]
fn register_message_replaces_topic() {
    let mut g = gossip_with_peers();
    g.register_message_hashed(40, 1, ENGINE, vec![1]);
    g.register_message_hashed(41, 1, ENGINE, vec![2]);
    assert_eq!(g.get_kept(1), Some(vec![2]));
    assert_eq!(KNOWN_MESSAGES_CACHE_SIZE, 4096);
}

#[test]
fn discard_all_discards() {
    let d = DiscardAll;
    assert_eq!(d.validate(1, &[1]), ValidationResult::Discard);
    assert!(d.message_expired(1, &[1]));
    assert_eq!(MessageIntent::broadcast(), MessageIntent::Broadcast);
}

#[test]
fn message_from_unregistered_peer_is_discarded() {
    let mut g = gossip_with_peers();
    assert_eq!(
        g.on_validated(77, ENGINE, 40, vec![6], ValidationResult::Maintain(4)),
        IncomingOutcome::Unregistered
    );
    assert_eq!(g.get_kept(4), None);
    let rm = RoutedMessage { route: RoutingInfo::Specific, msg: vec![6] };
    assert!(matches!(g.on_incoming(ENGINE, 41, Some(rm), 40), IncomingStep::Validate(_)));
    assert_eq!(g.on_validated(77, ENGINE, 40, vec![6], ValidationResult::Discard), IncomingOutcome::Unregistered);
    assert_eq!(g.on_validated(77, ENGINE, 40, vec![6], ValidationResult::Punish(-3)), IncomingOutcome::Punish(-3));
}

#[test]
fn disconnected_peer_is_no_longer_tracked() {
    let mut g = gossip_with_peers();
    g.peer_disconnected(2);
    assert_eq!(
        g.on_validated(2, ENGINE, 50, vec![7], ValidationResult::Maintain(5)),
        IncomingOutcome::Unregistered
    );
    assert_eq!(g.get_kept(5), None);
    assert_eq!(g.on_validated(4, ENGINE, 51, vec![8], ValidationResult::Maintain(6)), IncomingOutcome::Success);
    assert_eq!(g.get_kept(6), Some(vec![8]));
}
