use badger_chain::node_peers;
use badger_chain::peers::{Action, PeerConsensusState, PeerInfo, Peers};

#[test]
fn new_peer_is_registered_once() {
    let mut p = Peers::new();
    p.new_peer(5);
    p.update_peer_state(5, PeerConsensusState::Connected);
    p.new_peer(5);
    let info = p.peer(5).unwrap();
    assert_eq!(info.state, PeerConsensusState::Connected);
    assert_eq!(info.net_id, 5);
    assert_eq!(info.id, None);
    assert_eq!(p.peer_list(), vec![5]);
    assert!(p.peer(6).is_none());
}

#[test]
fn connected_lists_follow_state() {
    let mut p = Peers::new();
    p.update_peer_state(1, PeerConsensusState::Connected);
    p.update_peer_state(2, PeerConsensusState::GreetingReceived);
    p.new_peer(3);
    p.update_peer_state(4, PeerConsensusState::Connected);
    p.peer_disconnected(4);
    p.peer_disconnected(9);
    assert_eq!(p.peer_list(), vec![1, 2, 3, 4]);
    assert_eq!(p.connected_peer_list(), vec![1, 2]);
    assert_eq!(p.peer(4).unwrap().state, PeerConsensusState::Disconnected);
    assert!(p.peer(9).is_none());
}

#[test]
fn announced_keys_map_back_to_peers() {
    let mut p = Peers::new();
    p.update_peer_state(1, PeerConsensusState::Connected);
    p.update_id(1, 100);
    p.update_id(2, 200);
    assert_eq!(p.badgerid_to_peerid(100), Some(1));
    assert_eq!(p.badgerid_to_peerid(200), Some(2));
    assert_eq!(p.peer(1).unwrap().id, Some(100));
    assert_eq!(p.peer_by_id(100).unwrap().net_id, 1);
    assert!(p.peer_by_id(300).is_none());
    // only the connected peer's key is listed
    assert_eq!(p.connected_badgerid_list(), vec![100]);
    // a peer announcing a new key gives up its old one
    p.update_id(1, 101);
    assert_eq!(p.badgerid_to_peerid(100), None);
    assert_eq!(p.badgerid_to_peerid(101), Some(1));
    // a known peer cannot take a key another peer holds
    p.new_peer(3);
    p.update_id(3, 101);
    assert_eq!(p.badgerid_to_peerid(101), Some(1));
    assert_eq!(p.peer(3).unwrap().id, Some(101));
    // a peer seen for the first time takes the key over
    p.update_id(4, 101);
    assert_eq!(p.badgerid_to_peerid(101), Some(4));
}

#[test]
fn peer_info_constructors() {
    let i = PeerInfo::new(3);
    assert_eq!((i.id, i.net_id, i.state), (None, 3, PeerConsensusState::Unknown));
    let i = PeerInfo::new_id(7, 3);
    assert_eq!((i.id, i.net_id, i.state), (Some(7), 3, PeerConsensusState::Unknown));
    assert_ne!(Action::Useless(1), Action::Useless(2));
    assert_ne!(Action::Keep, Action::Discard);
}

#[test]
fn node_peers_track_state_and_ids() {
    let mut p = node_peers::Peers::new();
    p.new_peer(1);
    p.update_peer_state(2, node_peers::PeerConsensusState::GreetingReceived);
    p.update_id(1, 10);
    assert_eq!(p.peer(1).unwrap().id, Some(10));
    assert_eq!(p.peer(1).unwrap().state, node_peers::PeerConsensusState::Unknown);
    assert_eq!(p.peer_list(), vec![1, 2]);
    assert_eq!(p.connected_peer_list(), vec![2]);
    p.peer_disconnected(2);
    assert!(p.connected_peer_list().is_empty());
    assert_eq!(p.peer(2).unwrap().state, node_peers::PeerConsensusState::Disconnected);
    let fresh = node_peers::PeerInfo::new_id(4);
    assert_eq!(fresh.id, Some(4));
    assert_eq!(node_peers::PeerInfo::new().id, None);
}
