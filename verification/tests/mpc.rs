use badger_chain::htlc::Origin;
use badger_chain::mpc::{MpcError, Module};

#[test]
fn request_then_answer() {
    let mut m = Module::new();
    assert_eq!(m.request_sig(Origin::Signed(1), 5, vec![9, 9]), Ok(()));
    assert_eq!(m.request_of_exec(5), Some(vec![9, 9]));
    assert_eq!(m.result_of_exec(5), None);
    let keys = m.pending_request_keys();
    assert_eq!(keys, vec![(5, 5u64.to_le_bytes().to_vec())]);
    assert_eq!(m.save_sig(Origin::Signed(2), 5, vec![7]), Ok(()));
    assert_eq!(m.result_of_exec(5), Some(vec![7]));
    assert!(m.pending_request_keys().is_empty());
}

#[test]
fn an_answer_is_final() {
    let mut m = Module::new();
    m.request_sig(Origin::Signed(1), 5, vec![1]).unwrap();
    m.save_sig(Origin::Signed(2), 5, vec![7]).unwrap();
    // the request is closed: a second answer finds no request
    assert_eq!(m.save_sig(Origin::Signed(2), 5, vec![8]), Err(MpcError::RequestIdMissing));
    assert_eq!(m.request_of_exec(5), None);
    assert_eq!(m.result_of_exec(5), Some(vec![7]));
    // the id stays taken once answered
    assert_eq!(m.request_sig(Origin::Signed(1), 5, vec![2]), Err(MpcError::RequestIdExists));
}

#[test]
fn refusals() {
    let mut m = Module::new();
    assert_eq!(m.request_sig(Origin::Unsigned, 1, vec![]), Err(MpcError::BadOrigin));
    assert_eq!(m.save_sig(Origin::Signed(1), 1, vec![]), Err(MpcError::RequestIdMissing));
    assert_eq!(m.save_sig(Origin::Root, 1, vec![]), Err(MpcError::BadOrigin));
    m.request_sig(Origin::Signed(1), 1, vec![]).unwrap();
    assert_eq!(m.request_sig(Origin::Signed(3), 1, vec![4]), Err(MpcError::RequestIdExists));
    assert_eq!(m.request_of_exec(1), Some(vec![]));
}

#[test]
fn pending_requests_are_listed_in_id_order() {
    let mut m = Module::new();
    for id in [9u64, 3, 6] {
        m.request_sig(Origin::Signed(1), id, vec![id as u8]).unwrap();
    }
    let ids: Vec<u64> = m.pending_request_keys().into_iter().map(|(i, _)| i).collect();
    assert_eq!(ids, vec![3, 6, 9]);
    m.save_sig(Origin::Signed(1), 6, vec![]).unwrap();
    let ids: Vec<u64> = m.pending_request_keys().into_iter().map(|(i, _)| i).collect();
    assert_eq!(ids, vec![3, 9]);
}

#[test]
fn authorities_are_added_by_signed_origin() {
    let mut m = Module::new();
    assert!(!m.is_authority(4));
    assert_eq!(m.add_authority(Origin::Root, 4), Err(MpcError::BadOrigin));
    assert_eq!(m.add_authority(Origin::Signed(1), 4), Ok(()));
    assert!(m.is_authority(4));
}

#[test]
fn mpc_error_messages() {
    assert_eq!(MpcError::RequestIdExists.as_str(), "req id exists");
    assert_eq!(MpcError::RequestIdMissing.as_str(), "req id does not exist");
    assert_eq!(MpcError::BadOrigin.as_str(), "bad origin: expected to be a signed origin");
}
