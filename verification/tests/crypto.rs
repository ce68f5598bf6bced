use badger_chain::crypto::{
    lex_compare, verify, verify_commits, verify_weak, whash_compare, whash_eq, DeriveError, Public, PublicError,
    Signature, PK_SIZE, SIG_SIZE,
};
use std::cmp::Ordering;

#[test]
fn lex_compare_orders_bytes() {
    assert_eq!(lex_compare(&[1, 2], &[1, 3]), Ordering::Less);
    assert_eq!(lex_compare(&[2], &[1, 9]), Ordering::Greater);
    assert_eq!(lex_compare(&[1, 2], &[1, 2, 0]), Ordering::Less);
    assert_eq!(lex_compare(&[], &[]), Ordering::Equal);
}

#[test]
fn whash_compare_puts_shorter_first() {
    assert_eq!(whash_compare(&[9], &[1, 0]), Ordering::Less);
    assert_eq!(whash_compare(&[1, 0], &[9]), Ordering::Greater);
    assert_eq!(whash_compare(&[1, 2], &[1, 3]), Ordering::Less);
    assert!(whash_eq(&[4, 5], &[4, 5]));
    assert!(!whash_eq(&[4, 5], &[4]));
    assert!(!whash_eq(&[4, 5], &[4, 6]));
}

#[test]
fn public_key_from_slice_needs_exact_size() {
    assert!(Public::try_from_slice(&[0u8; PK_SIZE]).is_ok());
    assert!(Public::try_from_slice(&[0u8; PK_SIZE - 1]).is_err());
    assert!(Signature::try_from_slice(&[0u8; SIG_SIZE]).is_ok());
    assert!(Signature::try_from_slice(&[0u8; SIG_SIZE + 1]).is_err());
    let p = Public::try_from_slice(&[3u8; PK_SIZE]).unwrap();
    assert_eq!(p.as_array_ref(), &[3u8; PK_SIZE]);
}

#[test]
fn public_keys_compare_bytewise() {
    let mut a = [0u8; 48];
    let mut b = [0u8; 48];
    a[47] = 1;
    b[47] = 2;
    let pa = Public::from_raw(a);
    let pb = Public::from_raw(b);
    assert_eq!(pa.cmp_keys(&pb), Ordering::Less);
    assert_eq!(pb.cmp_keys(&pa), Ordering::Greater);
    assert!(pa.eq_keys(&pa.copy()));
    assert!(!pa.eq_keys(&pb));
}

#[test]
fn signature_of_threshold_crypto_verifies() {
    let sk = threshold_crypto::SecretKey::random();
    let pk = sk.public_key();
    let msg = b"block 42";
    let sig = sk.sign(msg);
    let pk_bytes = pk.to_bytes();
    let sig_bytes = sig.to_bytes();
    assert!(verify(&Signature::from_raw(sig_bytes), msg, &Public::from_raw(pk_bytes)));
    assert!(verify_weak(&sig_bytes, msg, &pk_bytes));
    assert!(!verify_weak(&sig_bytes, b"block 43", &pk_bytes));
    let other = threshold_crypto::SecretKey::random().public_key().to_bytes();
    assert!(!verify(&Signature::from_raw(sig_bytes), msg, &Public::from_raw(other)));
}

#[test]
fn garbage_key_does_not_verify() {
    assert!(!verify_weak(&[0u8; SIG_SIZE], b"m", &[7u8; PK_SIZE]));
}

#[test]
fn error_kinds_are_distinct() {
    assert_ne!(PublicError::BadBase58, PublicError::BadLength);
    assert_ne!(PublicError::UnknownVersion, PublicError::InvalidChecksum);
    assert_eq!(DeriveError::SoftKeyInPath, DeriveError::SoftKeyInPath);
}

#[test]
fn justification_commits_all_verify() {
    let hash = [7u8; 32];
    let keys: Vec<threshold_crypto::SecretKey> = (0..3).map(|_| threshold_crypto::SecretKey::random()).collect();
    let commits: Vec<(Public, Signature)> = keys
        .iter()
        .map(|k| (Public::from_raw(k.public_key().to_bytes()), Signature::from_raw(k.sign(&hash).to_bytes())))
        .collect();
    assert!(verify_commits(&hash, &commits));
    assert!(verify_commits(&hash, &vec![]));
    assert!(!verify_commits(&[8u8; 32], &commits));
    let mut swapped: Vec<(Public, Signature)> = commits.iter().map(|(p, s)| (p.copy(), s.copy())).collect();
    swapped[1] = (commits[2].0.copy(), commits[1].1.copy());
    assert!(!verify_commits(&hash, &swapped));
}
