use badger_chain::signer::{Confirmations, SignerEvent, Signer, SignerStep};

#[test]
fn confirming_peer_is_answered_only_when_views_agree() {
    let mut s = Signer::new(3);
    let e = SignerEvent::Confirming { from_index: 1, hash: 9, sender_index: 1, our_hash: 9 };
    assert_eq!(s.handle_incoming(e), SignerStep::ReplyConfirmed);
    let e = SignerEvent::Confirming { from_index: 1, hash: 8, sender_index: 1, our_hash: 9 };
    assert_eq!(s.handle_incoming(e), SignerStep::Nothing);
    let e = SignerEvent::Confirming { from_index: 2, hash: 9, sender_index: 1, our_hash: 9 };
    assert_eq!(s.handle_incoming(e), SignerStep::Nothing);
    assert_eq!(s.confirmations, Confirmations { peer: 0, com_decom: 0, vss: 0, secret_share: 0, proof: 0 });
}

#[test]
fn full_round_of_three_players() {
    let mut s = Signer::new(3);
    assert_eq!(s.handle_incoming(SignerEvent::Confirmed), SignerStep::Nothing);
    assert!(!s.has_local_key);
    assert_eq!(s.handle_incoming(SignerEvent::Confirmed), SignerStep::StartKeyGen);
    assert!(s.has_local_key);
    assert_eq!(s.handle_incoming(SignerEvent::CommitAndDecommit { from_index: 1, decommits: 2 }), SignerStep::Nothing);
    assert_eq!(
        s.handle_incoming(SignerEvent::CommitAndDecommit { from_index: 2, decommits: 3 }),
        SignerStep::DistributeShares
    );
    assert!(!s.ready_to_generate());
    assert_eq!(s.handle_incoming(SignerEvent::Vss { from_index: 1 }), SignerStep::Nothing);
    assert_eq!(s.handle_incoming(SignerEvent::SecretShare { from_index: 1 }), SignerStep::Nothing);
    assert!(!s.ready_to_generate());
    s.handle_incoming(SignerEvent::Vss { from_index: 2 });
    s.handle_incoming(SignerEvent::SecretShare { from_index: 2 });
    assert!(s.ready_to_generate());
    s.mark_generated();
    assert!(s.complete);
    assert!(!s.ready_to_generate());
    assert_eq!(s.handle_incoming(SignerEvent::Proof { from_index: 1, proofs: 2, points: 3 }), SignerStep::Nothing);
    assert_eq!(
        s.handle_incoming(SignerEvent::Proof { from_index: 2, proofs: 3, points: 3 }),
        SignerStep::VerifyProofs
    );
    assert_eq!(s.handle_incoming(SignerEvent::Sign), SignerStep::Nothing);
    assert_eq!(s.confirmations, Confirmations { peer: 2, com_decom: 2, vss: 2, secret_share: 2, proof: 2 });
}

#[test]
fn keys_are_started_once() {
    let mut s = Signer::new(2);
    assert_eq!(s.handle_incoming(SignerEvent::Confirmed), SignerStep::StartKeyGen);
    assert_eq!(s.handle_incoming(SignerEvent::Confirmed), SignerStep::Nothing);
    assert_eq!(s.confirmations.peer, 2);
}

#[test]
fn commitments_wait_for_all_decommitments() {
    let mut s = Signer::new(2);
    assert_eq!(s.handle_incoming(SignerEvent::CommitAndDecommit { from_index: 1, decommits: 1 }), SignerStep::Nothing);
    assert_eq!(s.confirmations.com_decom, 1);
}
