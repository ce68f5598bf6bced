use badger_chain::persistence::{genesis_persistent, load_persistent_badger, AuthoritySet, CURRENT_VERSION};

fn set(auths: Vec<u64>, set_id: u64) -> AuthoritySet {
    AuthoritySet { current_authorities: auths, set_id }
}

#[test]
fn stored_set_is_loaded_with_its_vote() {
    let d = load_persistent_badger(None, Some(set(vec![1, 2], 3)), Some(set(vec![4], 4))).unwrap().unwrap();
    assert_eq!(d.authority_set.current_authorities, vec![1, 2]);
    assert_eq!(d.authority_set.set_id, 3);
    assert_eq!(d.change_vote.unwrap().current_authorities, vec![4]);
    let d = load_persistent_badger(Some(CURRENT_VERSION), Some(set(vec![1], 0)), None).unwrap().unwrap();
    assert!(d.change_vote.is_none());
}

#[test]
fn missing_set_asks_for_genesis() {
    assert!(load_persistent_badger(None, None, Some(set(vec![4], 4))).unwrap().is_none());
    let g = genesis_persistent(vec![7, 8]);
    assert_eq!(g.authority_set.current_authorities, vec![7, 8]);
    assert_eq!(g.authority_set.set_id, 0);
    assert!(g.change_vote.is_none());
}

#[test]
fn unknown_version_is_refused() {
    assert_eq!(load_persistent_badger(Some(2), Some(set(vec![1], 0)), None).err(), Some(2));
}
