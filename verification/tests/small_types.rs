use badger_chain::assoc::{find_key, upsert};
use badger_chain::import_changes::{AppliedChanges, PendingSetChanges};
use badger_chain::mpc_messages::ConfirmPeersMessage;
use badger_chain::peerid::{IsSamePeer, PeerIdW};

#[test]
fn only_standard_changes_need_justification() {
    assert!(AppliedChanges::Standard(false).needs_justification());
    assert!(AppliedChanges::Standard(true).needs_justification());
    assert!(!AppliedChanges::Forced(vec![1]).needs_justification());
    assert!(!AppliedChanges::NoChange.needs_justification());
}

#[test]
fn revert_restores_kept_authorities() {
    let mut auths = vec![4, 5, 6];
    let p = PendingSetChanges { just_in_case: Some(vec![1, 2]), applied_changes: AppliedChanges::NoChange, do_pause: false };
    p.revert(&mut auths);
    assert_eq!(auths, vec![1, 2]);
    let p = PendingSetChanges { just_in_case: None, applied_changes: AppliedChanges::NoChange, do_pause: false };
    p.revert(&mut auths);
    assert_eq!(auths, vec![1, 2]);
}

#[test]
fn defuse_hands_out_the_change() {
    let p = PendingSetChanges { just_in_case: Some(vec![1]), applied_changes: AppliedChanges::Standard(true), do_pause: true };
    let (c, pause) = p.defuse();
    assert!(matches!(c, AppliedChanges::Standard(true)));
    assert!(pause);
}

#[test]
fn peer_spellings_compare() {
    assert!(PeerIdW(3).is_same_peer(&3u64));
    assert!(!PeerIdW(3).is_same_peer(&4u64));
    assert!(3u64.is_same_peer(&PeerIdW(3)));
    assert!(!5u64.is_same_peer(&PeerIdW(3)));
}

#[test]
fn mpc_confirmations() {
    let c = ConfirmPeersMessage::Confirming(2);
    assert!(matches!(c, ConfirmPeersMessage::Confirming(2)));
    assert!(matches!(ConfirmPeersMessage::Confirmed(String::from("x")), ConfirmPeersMessage::Confirmed(_)));
}

#[test]
fn keyed_lists_find_and_upsert() {
    let mut v: Vec<(u64, u64)> = vec![(1, 10), (2, 20)];
    assert_eq!(find_key(&v, 2), Some(1));
    assert_eq!(find_key(&v, 3), None);
    upsert(&mut v, 2, 21);
    upsert(&mut v, 3, 30);
    assert_eq!(v, vec![(1, 10), (2, 21), (3, 30)]);
}
