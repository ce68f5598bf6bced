use badger_chain::keygen_peers::{
    message_allowed, message_expired, BroadCastMessage, ConfirmPeersMessage, DecommitMessage,
    KeyGenMessage, Peers, Message, PeerState, SharedState, SignMessage,
};

#[test]
fn peers_are_ranked_by_name() {
    let mut p = Peers::new();
    p.add(1, b"QmZeta".to_vec());
    p.add(2, b"QmAlpha".to_vec());
    p.add(3, b"QmMid".to_vec());
    assert_eq!(p.len(), 3);
    assert_eq!(p.get_position(&b"QmAlpha".to_vec()), Some(0));
    assert_eq!(p.get_position(&b"QmMid".to_vec()), Some(1));
    assert_eq!(p.get_position(&b"QmZeta".to_vec()), Some(2));
    assert_eq!(p.get_position(&b"QmNone".to_vec()), None);
    assert_eq!(p.get_peer_id_by_index(0), Some(b"QmAlpha".to_vec()));
    assert_eq!(p.get_peer_id_by_index(3), None);
}

#[test]
fn removed_peer_leaves_the_ranking() {
    let mut p = Peers::new();
    p.add(1, b"b".to_vec());
    p.add(2, b"a".to_vec());
    p.add(2, b"a".to_vec());
    assert_eq!(p.len(), 2);
    p.set_generating(1);
    p.set_complete(2);
    p.del(2, &b"a".to_vec());
    assert_eq!(p.len(), 1);
    assert_eq!(p.get_position(&b"b".to_vec()), Some(0));
    assert_eq!(p.get_position(&b"a".to_vec()), None);
}

#[test]
fn message_types() {
    assert_eq!(PeerState::default(), PeerState::AwaitingPeers);
    let m = KeyGenMessage::BroadCast(BroadCastMessage { msg: 1 });
    assert_ne!(m, KeyGenMessage::Decommit(DecommitMessage { msg: 1 }));
    assert_ne!(SignMessage::Proof, SignMessage::BroadCast);
    let c = Message::ConfirmPeers(ConfirmPeersMessage::Confirming(0, 7));
    assert!(matches!(c, Message::ConfirmPeers(ConfirmPeersMessage::Confirming(0, 7))));
    let s = SharedState { signer_set: vec![vec![1]] };
    assert_eq!(s.signer_set.len(), 1);
    let k = Message::KeyGen(KeyGenMessage::VSS);
    assert!(matches!(k, Message::KeyGen(KeyGenMessage::VSS)));
    assert!(matches!(Message::Sign(SignMessage::Decommit), Message::Sign(_)));
    let _ = ConfirmPeersMessage::Confirmed(String::from("QmA"));
}

#[test]
fn gossip_expiry_follows_keygen_state() {
    let confirming = Message::ConfirmPeers(ConfirmPeersMessage::Confirming(1, 77));
    assert!(!message_expired(Some(&confirming), PeerState::AwaitingPeers, 77));
    assert!(message_expired(Some(&confirming), PeerState::AwaitingPeers, 78));
    assert!(message_expired(Some(&confirming), PeerState::Generating, 77));
    let confirmed = Message::ConfirmPeers(ConfirmPeersMessage::Confirmed(String::from("Qm")));
    assert!(!message_expired(Some(&confirmed), PeerState::AwaitingPeers, 0));
    assert!(message_expired(Some(&confirmed), PeerState::Complete, 0));
    let kg = Message::KeyGen(KeyGenMessage::Proof);
    assert!(!message_expired(Some(&kg), PeerState::Generating, 0));
    assert!(message_expired(Some(&kg), PeerState::Complete, 0));
    assert!(!message_expired(Some(&Message::Sign(SignMessage::Proof)), PeerState::Complete, 0));
    assert!(message_expired(None, PeerState::AwaitingPeers, 0));
}

#[test]
fn gossip_allows_confirmations_and_keygen() {
    let kg = Message::KeyGen(KeyGenMessage::VSS);
    assert!(message_allowed(false, false, Some(&kg)));
    assert!(message_allowed(false, false, Some(&Message::ConfirmPeers(ConfirmPeersMessage::Confirming(0, 0)))));
    assert!(!message_allowed(false, true, Some(&Message::Sign(SignMessage::BroadCast))));
    assert!(!message_allowed(false, true, None));
    assert!(message_allowed(true, true, None));
    assert!(!message_allowed(true, false, Some(&kg)));
}
