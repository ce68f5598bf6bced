//! Threshold-BLS node keys: raw public keys and signatures, their byte
//! ordering, and signature verification through `threshold_crypto`.

use vstd::prelude::*;
use std::cmp::Ordering;
use crate::byte_order::{lex_order, hash_order, suffix_order, lemma_suffix_zero, lemma_suffix_step, lemma_suffix_end};

verus! {

/// Public key size in bytes.
pub const PK_SIZE: usize = 48;

/// Secret key seed size in bytes.
pub const SK_SIZE: usize = 32;

/// Signature size in bytes.
pub const SIG_SIZE: usize = 96;

/// A raw BLS public key.
pub struct Public(pub [u8; 48]);

/// A raw BLS signature.
pub struct Signature(pub [u8; 96]);

/// Errors of the textual key encoding.
#[derive(Clone, Copy, Debug, PartialEq, Eq, Structural)]
pub enum PublicError {
    /// Bad alphabet.
    BadBase58,
    /// Bad length.
    BadLength,
    /// Unknown version.
    UnknownVersion,
    /// Invalid checksum.
    InvalidChecksum,
}

/// An error when deriving a key.
#[derive(Clone, Copy, Debug, PartialEq, Eq, Structural)]
pub enum DeriveError {
    /// A soft key was found in the path (and is unsupported).
    SoftKeyInPath,
}

/// Whether `sig` is a valid BLS signature of `msg` under the public key
/// `pk`, by the judgement of `threshold_crypto` (false when either byte string
/// is not a valid curve point).
pub uninterp spec fn bls_signature_valid(sig: Seq<u8>, msg: Seq<u8>, pk: Seq<u8>) -> bool;

/// Calls `threshold_crypto::PublicKey::from_bytes`, `Signature::from_bytes`
/// and `PublicKey::verify`: the result is named by `bls_signature_valid` of
/// the three byte strings; nothing about BLS itself is stated.
#[verifier::external_body]
fn bls_verify(sig: &[u8; 96], msg: &[u8], pk: &[u8; 48]) -> (r: bool)
    ensures
        r == bls_signature_valid(sig@, msg@, pk@),
{
    match (threshold_crypto::PublicKey::from_bytes(pk), threshold_crypto::Signature::from_bytes(sig)) {
        (Ok(pk), Ok(sig)) => pk.verify(&sig, msg),
        _ => false,
    }
}

/// The number standing for an `Ordering`: -1, 0 or 1.
pub open spec fn ordering_value(o: Ordering) -> int {
    match o {
        Ordering::Less => -1,
        Ordering::Equal => 0,
        Ordering::Greater => 1,
    }
}

/// Compares two byte strings lexicographically.
pub fn lex_compare(a: &[u8], b: &[u8]) -> (r: Ordering)
    ensures
        ordering_value(r) == lex_order(a@, b@),
{
    let mut i: usize = 0;
    proof {
        lemma_suffix_zero(a@, b@);
    }
    while i < a.len() && i < b.len()
        invariant
            0 <= i <= a@.len(),
            i <= b@.len(),
            lex_order(a@, b@) == suffix_order(a@, b@, i),
        decreases a@.len() - i,
    {
        proof {
            lemma_suffix_step(a@, b@, i);
        }
        if a[i] < b[i] {
            return Ordering::Less;
        }
        if a[i] > b[i] {
            return Ordering::Greater;
        }
        i = i + 1;
    }
    proof {
        lemma_suffix_end(a@, b@, i);
    }
    if i < a.len() {
        Ordering::Greater
    } else if i < b.len() {
        Ordering::Less
    } else {
        Ordering::Equal
    }
}

/// Compares two hashes: shorter first, equal lengths lexicographically.
pub fn whash_compare(a: &[u8], b: &[u8]) -> (r: Ordering)
    ensures
        ordering_value(r) == hash_order(a@, b@),
{
    if a.len() > b.len() {
        return Ordering::Greater;
    }
    if a.len() < b.len() {
        return Ordering::Less;
    }
    lex_compare(a, b)
}

/// Whether two hashes are equal under the hash ordering.
pub fn whash_eq(a: &[u8], b: &[u8]) -> (r: bool)
    ensures
        r == (a@ == b@),
{
    if a.len() != b.len() {
        return false;
    }
    let mut i: usize = 0;
    while i < a.len()
        invariant
            a@.len() == b@.len(),
            0 <= i <= a@.len(),
            forall|j: int| 0 <= j < i ==> a@[j] == b@[j],
        decreases a@.len() - i,
    {
        if a[i] != b[i] {
            return false;
        }
        i = i + 1;
    }
    assert(a@ =~= b@);
    true
}

impl Public {
    pub open spec fn view(&self) -> Seq<u8> {
        self.0@
    }

    pub fn from_raw(data: [u8; 48]) -> (r: Public)
        ensures
            r@ == data@,
    {
        Public(data)
    }

    pub fn as_array_ref(&self) -> (r: &[u8; 48])
        ensures
            r@ == self@,
    {
        &self.0
    }

    /// A public key from exactly `PK_SIZE` bytes.
    pub fn try_from_slice(data: &[u8]) -> (r: Result<Public, ()>)
        ensures
            data@.len() == PK_SIZE <==> r is Ok,
            r matches Ok(p) ==> p@ == data@,
    {
        if data.len() != PK_SIZE {
            return Err(());
        }
        let mut inner = [0u8; 48];
        let mut i: usize = 0;
        while i < 48
            invariant
                data@.len() == 48,
                0 <= i <= 48,
                forall|j: int| 0 <= j < i ==> inner@[j] == data@[j],
            decreases 48 - i,
        {
            inner[i] = data[i];
            i = i + 1;
        }
        assert(inner@ =~= data@);
        Ok(Public(inner))
    }

    /// Byte-wise lexicographic order of public keys.
    pub fn cmp_keys(&self, other: &Public) -> (r: Ordering)
        ensures
            ordering_value(r) == lex_order(self@, other@),
    {
        lex_compare(&self.0, &other.0)
    }

    /// Byte-wise equality of public keys.
    pub fn eq_keys(&self, other: &Public) -> (r: bool)
        ensures
            r == (self@ == other@),
    {
        whash_eq(&self.0, &other.0)
    }

    pub fn copy(&self) -> (r: Public)
        ensures
            r@ == self@,
    {
        Public(self.0)
    }
}

impl Signature {
    pub open spec fn view(&self) -> Seq<u8> {
        self.0@
    }

    pub fn from_raw(data: [u8; 96]) -> (r: Signature)
        ensures
            r@ == data@,
    {
        Signature(data)
    }

    /// A signature from exactly `SIG_SIZE` bytes.
    pub fn try_from_slice(data: &[u8]) -> (r: Result<Signature, ()>)
        ensures
            data@.len() == SIG_SIZE <==> r is Ok,
            r matches Ok(s) ==> s@ == data@,
    {
        if data.len() != SIG_SIZE {
            return Err(());
        }
        let mut inner = [0u8; 96];
        let mut i: usize = 0;
        while i < 96
            invariant
                data@.len() == 96,
                0 <= i <= 96,
                forall|j: int| 0 <= j < i ==> inner@[j] == data@[j],
            decreases 96 - i,
        {
            inner[i] = data[i];
            i = i + 1;
        }
        assert(inner@ =~= data@);
        Ok(Signature(inner))
    }

    pub fn copy(&self) -> (r: Signature)
        ensures
            r@ == self@,
    {
        Signature(self.0)
    }
}

/// Verifies `sig` over `message` under the raw public key `pubkey`.
pub fn verify_weak(sig: &[u8], message: &[u8], pubkey: &[u8]) -> (r: bool)
    requires
        sig@.len() == SIG_SIZE,
        pubkey@.len() == PK_SIZE,
    ensures
        r == bls_signature_valid(sig@, message@, pubkey@),
{
    let pk = match Public::try_from_slice(pubkey) {
        Ok(p) => p,
        Err(_) => {
            return false;
        },
    };
    let s = match Signature::try_from_slice(sig) {
        Ok(s) => s,
        Err(_) => {
            return false;
        },
    };
    bls_verify(&s.0, message, &pk.0)
}

/// Verifies `sig` over `message` under `pubkey`.
pub fn verify(sig: &Signature, message: &[u8], pubkey: &Public) -> (r: bool)
    ensures
        r == bls_signature_valid(sig@, message@, pubkey@),
{
    bls_verify(&sig.0, message, &pubkey.0)
}

/// Verifies the commits of a full justification: each signature must be
/// valid over `message`, the encoded block hash, under its validator's key.
pub fn verify_commits(message: &[u8], commits: &Vec<(Public, Signature)>) -> (r: bool)
    ensures
        r == forall|i: int|
            0 <= i < commits@.len() ==> bls_signature_valid(
                #[trigger] commits@[i].1@,
                message@,
                commits@[i].0@,
            ),
{
    let mut i: usize = 0;
    while i < commits.len()
        invariant
            0 <= i <= commits@.len(),
            forall|j: int|
                0 <= j < i ==> bls_signature_valid(#[trigger] commits@[j].1@, message@, commits@[j].0@),
        decreases commits@.len() - i,
    {
        if !verify(&commits[i].1, message, &commits[i].0) {
            return false;
        }
        i = i + 1;
    }
    true
}

/// Something that generates, stores and provides access to node keys and
/// to the data of key requests; `key_type` is the key type id.
pub trait BareCryptoStore {
    /// All node public keys of the key type.
    fn hb_node_public_keys(&self, key_type: u32) -> Vec<Public>;

    /// Generates a node key pair, kept in memory only when seeded.
    fn hb_node_generate_new(&mut self, key_type: u32, seed: Option<&str>) -> Result<Public, String>;

    /// Inserts a key given by its secret URI and public key.
    fn insert_unknown(&mut self, key_type: u32, suri: &str, public: &[u8]) -> Result<(), ()>;

    /// The password of the store.
    fn password(&self) -> Option<String>;

    /// Starts a key request; fails if it exists or cannot be created.
    fn initiate_request(&self, request_id: &[u8], key_type: u32) -> Result<(), ()>;

    /// The data of a key request.
    fn get_request_data(&self, request_id: &[u8], key_type: u32) -> Option<Vec<u8>>;

    /// Stores the data of a key request.
    fn set_request_data(&self, request_id: &[u8], key_type: u32, request_data: &[u8]) -> Result<(), ()>;
}

} // verus!
