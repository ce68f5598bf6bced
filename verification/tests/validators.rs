use badger_chain::htlc::Origin;
use badger_chain::validators::{
    AccountBinding, Module, ConsensusLog, SignedAccountBinding, ValidatorError,
    MIN_VALIDATORS,
};

fn binding(account: u64, key: u64) -> SignedAccountBinding {
    SignedAccountBinding { data: AccountBinding { self_pub_key: key, bound_account: account }, sig: vec![1, 2, 3] }
}

/// Authorities 101..=104 with accounts 1..=4 bound to them, and account 5
/// bound to key 105.
fn bound_module() -> Module {
    let mut m = Module::new(vec![101, 102, 103, 104]);
    for a in 1..=5u64 {
        assert!(m.submit_account_binding(Origin::Signed(a), binding(a, 100 + a), true).is_ok());
    }
    m
}

#[test]
fn genesis_has_authorities_and_no_bindings() {
    let m = Module::new(vec![7, 8]);
    assert_eq!(m.badger_authorities(), vec![7, 8]);
    assert_eq!(m.current_set_id(), 0);
    assert_eq!(m.logs_len(), 0);
    assert_eq!(m.account_to_authority(1), None);
}

#[test]
fn binding_errors() {
    let mut m = Module::new(vec![101]);
    assert_eq!(m.submit_account_binding(Origin::Unsigned, binding(1, 101), true), Err(ValidatorError::BadOrigin));
    assert_eq!(m.submit_account_binding(Origin::Signed(1), binding(1, 101), false), Err(ValidatorError::InvalidSignature));
    assert_eq!(m.submit_account_binding(Origin::Signed(2), binding(1, 101), true), Err(ValidatorError::InvalidAccount));
    assert_eq!(m.submit_account_binding(Origin::Signed(1), binding(1, 101), true), Ok(()));
    assert_eq!(m.submit_account_binding(Origin::Signed(1), binding(1, 102), true), Err(ValidatorError::AlreadyBound));
    assert_eq!(m.submit_account_binding(Origin::Signed(3), binding(3, 101), true), Err(ValidatorError::AlreadyBound));
    assert_eq!(m.account_to_authority(1), Some(101));
    assert_eq!(m.account_to_authority(3), None);
}

#[test]
fn bind_then_unbind_restores_lookup() {
    let mut m = Module::new(vec![101]);
    assert!(!m.check_either_present(1, 101));
    m.submit_account_binding(Origin::Signed(1), binding(1, 101), true).unwrap();
    assert!(m.check_either_present(9, 101));
    assert!(m.check_either_present(1, 999));
    assert_eq!(m.is_account_authority(1), Some(101));
    assert_eq!(m.remove_account_binding(Origin::Signed(1)), Ok(()));
    assert_eq!(m.account_to_authority(1), None);
    assert!(!m.check_either_present(1, 101));
    assert_eq!(m.remove_account_binding(Origin::Signed(1)), Err(ValidatorError::NotBound));
    assert_eq!(m.remove_account_binding(Origin::Root), Err(ValidatorError::BadOrigin));
}

#[test]
fn bound_account_outside_set_is_no_authority() {
    let m = bound_module();
    assert_eq!(m.is_account_authority(5), None);
    assert_eq!(m.account_to_authority(5), Some(105));
}

#[test]
fn vote_to_add_outcomes() {
    let mut m = bound_module();
    assert_eq!(m.vote_to_add(Origin::Signed(1), 5), Ok(()));
    assert_eq!(m.logs_len(), 1);
    assert_eq!(m.vote_to_add(Origin::Signed(1), 2), Err(ValidatorError::AlreadyValidator));
    assert_eq!(m.vote_to_add(Origin::Signed(5), 5), Err(ValidatorError::NotValidator));
    assert_eq!(m.vote_to_add(Origin::Signed(9), 5), Err(ValidatorError::NotValidator));
    assert_eq!(m.vote_to_add(Origin::Signed(1), 7), Err(ValidatorError::UnboundAccount));
    assert_eq!(m.vote_to_add(Origin::Root, 5), Err(ValidatorError::BadOrigin));
    assert_eq!(m.logs_len(), 1);
    // a vote changes no authorities
    assert_eq!(m.badger_authorities(), vec![101, 102, 103, 104]);
}

#[test]
fn vote_to_remove_keeps_minimum() {
    let mut m = bound_module();
    assert_eq!(MIN_VALIDATORS, 4);
    assert_eq!(m.vote_to_remove(Origin::Signed(1), 5), Err(ValidatorError::NotInValidatorSet));
    assert_eq!(m.vote_to_remove(Origin::Signed(1), 4), Err(ValidatorError::CannotReduce));
    let mut big = Module::new(vec![101, 102, 103, 104, 105]);
    for a in 1..=5u64 {
        big.submit_account_binding(Origin::Signed(a), binding(a, 100 + a), true).unwrap();
    }
    assert_eq!(big.vote_to_remove(Origin::Signed(1), 4), Ok(()));
    assert_eq!(big.logs_len(), 1);
}

#[test]
fn vote_to_change_needs_enough_validators() {
    let mut m = bound_module();
    assert_eq!(m.vote_to_change(Origin::Signed(2), vec![1, 2, 3]), Err(ValidatorError::NotEnoughValidators));
    assert_eq!(m.vote_to_change(Origin::Signed(2), vec![1, 2, 3, 9]), Err(ValidatorError::UnboundAccount));
    assert_eq!(m.vote_to_change(Origin::Signed(2), vec![1, 2, 3, 4, 5]), Ok(()));
}

#[test]
fn vote_needs_every_authority_mapped() {
    let mut m = Module::new(vec![101, 102, 103, 109]);
    for a in 1..=5u64 {
        m.submit_account_binding(Origin::Signed(a), binding(a, 100 + a), true).unwrap();
    }
    assert_eq!(m.vote_to_add(Origin::Signed(1), 5), Err(ValidatorError::NotAllMapped));
}

#[test]
fn session_ending_reports_accounts_of_mapped_authorities() {
    let m = bound_module();
    assert_eq!(m.on_session_ending(None), None);
    assert_eq!(m.on_session_ending(Some(vec![101, 109, 102])), Some(vec![1, 2]));
}

#[test]
fn new_session_uses_bound_keys_and_advances_set() {
    let mut m = bound_module();
    m.on_new_session(&vec![(1, 900), (8, 800)]);
    assert_eq!(m.badger_authorities(), vec![101, 800]);
    assert_eq!(m.current_set_id(), 1);
    assert_eq!(m.logs_len(), 1);
}

#[test]
fn consensus_log_conversions() {
    assert_eq!(ConsensusLog::VoteToAdd(3).try_into_add(), Some(3));
    assert_eq!(ConsensusLog::VoteToRemove(3).try_into_add(), None);
    assert_eq!(ConsensusLog::VoteToRemove(4).try_into_remove(), Some(4));
    assert_eq!(ConsensusLog::VoteComplete(vec![1, 2]).try_into_complete(), Some(vec![1, 2]));
    assert_eq!(ConsensusLog::NotifyChangedSet(vec![1]).try_into_complete(), None);
}

#[test]
fn validator_error_messages() {
    assert_eq!(ValidatorError::NotBound.as_str(), "Account not bound");
    assert_eq!(ValidatorError::CannotReduce.as_str(), "Cannot reduce validator set further");
    assert_eq!(ValidatorError::NotAllMapped.as_str(), "Internal error: not all validators mapped");
}
