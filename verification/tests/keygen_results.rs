use badger_chain::htlc::Origin;
use badger_chain::keygen_results::{requests_to_report, KeygenError, KeygenLog, KeygenResult, Module};
use badger_chain::storage_keys::request_mark_key;
use parity_scale_codec::Encode;

fn report(req_id: u64, data: Option<Vec<u8>>, index: u32) -> KeygenResult {
    KeygenResult { req_id, result_data: data, our_auth_index: index }
}

#[test]
fn a_report_is_recorded_once() {
    let mut m = Module::new(vec![11, 22]);
    assert_eq!(m.report_result(Origin::Unsigned, report(5, Some(vec![1, 2]), 1), true), Ok(()));
    assert_eq!(m.vote_of(22, 5), Some(Some(vec![1, 2])));
    assert_eq!(m.vote_of(11, 5), None);
    assert_eq!(
        m.report_result(Origin::Unsigned, report(5, None, 1), true),
        Err(KeygenError::AlreadySet)
    );
    assert_eq!(m.vote_of(22, 5), Some(Some(vec![1, 2])));
    assert_eq!(m.report_result(Origin::Unsigned, report(5, None, 0), true), Ok(()));
    assert_eq!(m.vote_of(11, 5), Some(None));
}

#[test]
fn report_refusals() {
    let mut m = Module::new(vec![11]);
    assert_eq!(m.report_result(Origin::Signed(1), report(1, None, 0), true), Err(KeygenError::BadOrigin));
    assert_eq!(m.report_result(Origin::Unsigned, report(1, None, 1), true), Err(KeygenError::NoPublicKey));
    assert_eq!(m.report_result(Origin::Unsigned, report(1, None, 0), false), Err(KeygenError::InvalidSignature));
    assert_eq!(m.vote_of(11, 1), None);
    assert_eq!(KeygenError::NoPublicKey.as_str(), "Non existent public key.");
    assert_eq!(KeygenError::AlreadySet.as_str(), "This result was already set");
    assert_eq!(KeygenError::InvalidSignature.as_str(), "Invalid result signature.");
    assert_eq!(KeygenError::DuplicateRequest.as_str(), "Duplicate request ID");
}

#[test]
fn requests_are_logged_once() {
    let mut m = Module::new(vec![]);
    assert_eq!(m.send_log(Origin::Signed(3), 9), Ok(()));
    assert_eq!(m.send_log(Origin::Signed(4), 9), Err(KeygenError::DuplicateRequest));
    assert_eq!(m.send_log(Origin::Unsigned, 10), Err(KeygenError::BadOrigin));
    m.set_test();
    assert_eq!(m.test(), 10);
    assert_eq!(m.keys(), Vec::<u64>::new());
}

#[test]
fn local_reports_follow_authority_order() {
    let m = Module::new(vec![30, 10, 20, 40]);
    let out = m.local_results(7, &vec![1, 2, 3], &vec![20, 30, 99]);
    let idx: Vec<u32> = out.iter().map(|r| r.our_auth_index).collect();
    assert_eq!(idx, vec![0, 2]);
    assert!(out.iter().all(|r| r.req_id == 7 && r.result_data == Some(vec![1, 2, 3])));
    let out = m.local_results(7, &vec![0], &vec![40]);
    assert_eq!(out.len(), 1);
    assert_eq!(out[0].our_auth_index, 3);
    assert_eq!(out[0].result_data, None);
}

#[test]
fn completed_requests_to_report() {
    assert_eq!(requests_to_report(Some(vec![3u64, 5].encode())), vec![3, 5]);
    assert!(requests_to_report(Some(vec![1])).is_empty());
    assert!(requests_to_report(None).is_empty());
}

#[test]
fn request_marks_and_logs() {
    let mut key = b"srml/keygen/request_".to_vec();
    key.extend_from_slice(&9u64.encode());
    assert_eq!(request_mark_key(9), key);
    let log = KeygenLog::RequestForKeygen(4, vec![2; 32]);
    assert_eq!(log.try_into_vec(), Some((4, vec![2u8; 32])));
}
