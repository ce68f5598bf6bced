use badger_chain::storage_keys::{
    extend_le_u64, get_complete_list_prefix, get_data_prefix, get_key_prefix, get_request_key,
    get_storage_key, set_request_complete, sort_dedup, OffchainStorageType,
};
use parity_scale_codec::{Decode, Encode};

fn main_prefix() -> Vec<u8> {
    b"srml/keygen/request_".to_vec()
}

#[test]
fn storage_keys_carry_kind_prefix_and_le_id() {
    let id: u64 = 0x0102_0304_0506_0708;
    let le = id.to_le_bytes().to_vec();
    let mut sk = b"mpc/sk/".to_vec();
    sk.extend_from_slice(&le);
    let mut pk = b"mpc/pk/".to_vec();
    pk.extend_from_slice(&le);
    let mut sig = b"mpc/sig/".to_vec();
    sig.extend_from_slice(&le);
    assert_eq!(get_storage_key(id, OffchainStorageType::LocalSecretKey), sk);
    assert_eq!(get_storage_key(id, OffchainStorageType::SharedPublicKey), pk);
    assert_eq!(get_storage_key(id, OffchainStorageType::Signature), sig);
}

#[test]
fn request_key_is_le_id() {
    assert_eq!(get_request_key(7), vec![7, 0, 0, 0, 0, 0, 0, 0]);
    assert_eq!(get_request_key(u64::MAX), vec![255u8; 8]);
}

#[test]
fn extend_le_appends() {
    let mut v = vec![9u8];
    extend_le_u64(&mut v, 0x1122);
    assert_eq!(v, vec![9, 0x22, 0x11, 0, 0, 0, 0, 0, 0]);
}

#[test]
fn data_and_key_prefixes_use_scale_encoding() {
    let id: u64 = 300;
    let mut data = main_prefix();
    data.extend_from_slice(b"_data");
    data.extend_from_slice(&id.encode());
    assert_eq!(get_data_prefix(id), data);
    let mut key = main_prefix();
    key.extend_from_slice(b"_key");
    key.extend_from_slice(&id.encode());
    assert_eq!(get_key_prefix(id), key);
    // the SCALE encoding of a u64 is its little-endian bytes, not the id itself
    assert_ne!(get_data_prefix(id), get_data_prefix(301));
    assert!(get_data_prefix(id).ends_with(&[44, 1, 0, 0, 0, 0, 0, 0]));
}

#[test]
fn complete_list_prefix_text() {
    let mut p = main_prefix();
    p.extend_from_slice(b"_crequests");
    assert_eq!(get_complete_list_prefix(), p);
}

#[test]
fn sort_dedup_orders_and_drops_repeats() {
    assert_eq!(sort_dedup(&vec![5, 1, 5, 3, 1]), vec![1, 3, 5]);
    assert_eq!(sort_dedup(&vec![]), Vec::<u64>::new());
    assert_eq!(sort_dedup(&vec![2, 2, 2]), vec![2]);
}

#[test]
fn completing_first_request_stores_single_id() {
    let enc = set_request_complete(None, 9).unwrap();
    assert_eq!(Vec::<u64>::decode(&mut enc.as_slice()).unwrap(), vec![9]);
}

#[test]
fn completing_request_merges_sorted_without_repeats() {
    let stored = vec![4u64, 1, 8].encode();
    let enc = set_request_complete(Some(stored), 2).unwrap();
    assert_eq!(Vec::<u64>::decode(&mut enc.as_slice()).unwrap(), vec![1, 2, 4, 8]);
    let stored = vec![1u64, 2].encode();
    let enc = set_request_complete(Some(stored), 2).unwrap();
    assert_eq!(Vec::<u64>::decode(&mut enc.as_slice()).unwrap(), vec![1, 2]);
}

#[test]
fn completing_request_over_garbage_fails() {
    let r = set_request_complete(Some(vec![0xff]), 2);
    assert_eq!(r, Err("Invalid data stored"));
}

#[test]
fn completed_list_encoding_switches_length_mode() {
    assert_eq!(set_request_complete(None, 3), Ok(vec![4u8, 3, 0, 0, 0, 0, 0, 0, 0]));
    let mut stored: Option<Vec<u8>> = None;
    for id in 0..64u64 {
        stored = Some(set_request_complete(stored, id).unwrap());
    }
    let bytes = stored.unwrap();
    assert_eq!(&bytes[..2], &[1u8, 1]);
    assert_eq!(bytes.len(), 2 + 64 * 8);
    assert_eq!(&bytes[2..10], &[0u8, 0, 0, 0, 0, 0, 0, 0]);
    assert_eq!(&bytes[bytes.len() - 8..], &[63u8, 0, 0, 0, 0, 0, 0, 0]);
}
