use badger_chain::peers::Peers;
use badger_chain::routing::{validator_peers, Delivery, DirectOutgoing, DirectTarget, BadgerGossipValidator, LocalTarget, Outgoing};

fn show(d: &Delivery) -> String {
    match d {
        Delivery::Keep(c, m) => format!("keep {} {:?}", c, m),
        Delivery::SendSingle(p, m) => format!("single {} {:?}", p, m),
        Delivery::SendToSet(s, m) => format!("set {:?} {:?}", s, m),
        Delivery::BroadcastExcept(s, m) => format!("except {:?} {:?}", s, m),
    }
}

fn shown(ds: &[Delivery]) -> Vec<String> {
    ds.iter().map(show).collect()
}

fn out(target: LocalTarget, data: Vec<u8>, own_session: bool) -> Outgoing {
    Outgoing { target, data, own_session }
}

#[test]
fn flush_routes_and_queues_for_absent_validators() {
    let mut f = BadgerGossipValidator::new();
    let msgs = vec![
        out(LocalTarget::Nodes(vec![2, 3]), vec![1], false),
        out(LocalTarget::AllExcept(vec![2]), vec![2], true),
        out(LocalTarget::Keep(9), vec![3], false),
    ];
    let plan = f.flush_message(&msgs, 1, 77, &vec![2], &vec![2, 3, 4]);
    assert_eq!(
        shown(&plan.deliveries),
        vec!["set [2, 3] [1]", "keep 77 [2]", "except [2] [2]", "keep 9 [3]"]
    );
    assert_eq!(plan.self_directed, vec![vec![2]]);

    // peer 3 connects: its queue goes out first
    let plan = f.flush_message(&vec![out(LocalTarget::Keep(5), vec![9], false)], 1, 77, &vec![3], &vec![2, 3, 4]);
    assert_eq!(shown(&plan.deliveries), vec!["single 3 [1]", "single 3 [2]", "keep 5 [9]"]);
    assert!(plan.self_directed.is_empty());

    // nothing to flush: queues stay
    let plan = f.flush_message(&vec![], 1, 77, &vec![3, 4], &vec![2, 3, 4]);
    assert!(plan.deliveries.is_empty());
    assert_eq!(f.resend(&vec![4]).iter().map(show).collect::<Vec<_>>(), vec!["single 4 [2]"]);
    assert!(f.resend(&vec![3, 4]).is_empty());
}

#[test]
fn message_to_ourselves_is_handed_back() {
    let mut f = BadgerGossipValidator::new();
    let (ds, mine) = f.route_outgoing(&out(LocalTarget::Nodes(vec![1]), vec![4], false), 1, 77, &vec![1], &vec![]);
    assert_eq!(shown(&ds), vec!["set [1] [4]"]);
    assert_eq!(mine, Some(vec![4]));
    let (_, mine) = f.route_outgoing(&out(LocalTarget::AllExcept(vec![1]), vec![4], false), 1, 77, &vec![], &vec![]);
    assert_eq!(mine, None);
    let (_, mine) = f.route_outgoing(&out(LocalTarget::Keep(3), vec![4], false), 1, 77, &vec![], &vec![]);
    assert_eq!(mine, None);
}

#[test]
fn queued_copies_wait_per_peer() {
    let mut f = BadgerGossipValidator::new();
    f.queue(5, &vec![1]);
    f.queue(2, &vec![2]);
    f.queue(5, &vec![3]);
    assert_eq!(shown(&f.resend(&vec![5, 2])), vec!["single 2 [2]", "single 5 [1]", "single 5 [3]"]);
}

#[test]
fn validator_peers_maps_known_authorities() {
    let mut peers = Peers::new();
    peers.update_id(200, 20);
    assert_eq!(validator_peers(&vec![10, 20, 30], 10, 100, &peers), vec![100, 200]);
}

#[test]
fn direct_flush_sends_peer_by_peer() {
    let mut f = BadgerGossipValidator::new();
    let msgs = vec![
        DirectOutgoing { target: DirectTarget::Nodes(vec![2, 3]), data: vec![1] },
        DirectOutgoing { target: DirectTarget::AllExcept(vec![4]), data: vec![2] },
    ];
    let sent = f.flush_message_either(&msgs, 1, &vec![1, 2, 4], &vec![1, 2, 3, 4]);
    assert_eq!(shown(&sent), vec!["single 2 [1]", "single 2 [2]"]);
    // copies wait for the absent node, and for the excluded validator too
    let sent = f.flush_message_either(&vec![], 1, &vec![3, 4], &vec![1, 2, 3, 4]);
    assert_eq!(shown(&sent), vec!["single 3 [1]", "single 3 [2]", "single 4 [2]"]);
    assert!(f.flush_message_either(&vec![], 1, &vec![3, 4], &vec![]).is_empty());
}

#[test]
fn resend_gives_each_connected_peer_exactly_its_queue() {
    let mut f = BadgerGossipValidator::new();
    f.queue(7, &vec![1]);
    f.queue(3, &vec![2]);
    f.queue(7, &vec![3]);
    f.queue(9, &vec![4]);
    assert_eq!(shown(&f.resend(&vec![7])), vec!["single 7 [1]", "single 7 [3]"]);
    assert_eq!(shown(&f.resend(&vec![3, 7, 9])), vec!["single 3 [2]", "single 9 [4]"]);
    assert!(f.resend(&vec![3, 7, 9]).is_empty());
}
