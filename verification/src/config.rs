//! The node's configuration: read from a parsed configuration document,
//! with counts given as numbers or decimal text, keys as hex-encoded
//! `bincode` of `threshold_crypto` keys, and peers by name.

use vstd::prelude::*;
use crate::crypto::whash_eq;
use crate::assoc::{find_opt, distinct_keys, upsert};

verus! {

#[verifier::external_type_specification]
#[verifier::external_body]
pub struct ExPublicKey(threshold_crypto::PublicKey);

#[verifier::external_type_specification]
#[verifier::external_body]
pub struct ExSecretKey(threshold_crypto::SecretKey);

#[verifier::external_type_specification]
#[verifier::external_body]
pub struct ExSecretKeyShare(threshold_crypto::SecretKeyShare);

#[verifier::external_type_specification]
#[verifier::external_body]
pub struct ExPublicKeySet(threshold_crypto::PublicKeySet);

/// A value of the configuration document.
pub enum ConfigValue {
    Null,
    Bool(bool),
    /// A number, with its value where it is a `u64`.
    Number(Option<u64>),
    /// A text, as UTF-8 bytes.
    Text(Vec<u8>),
    Array(Vec<ConfigValue>),
    /// An object's entries, in key order.
    Object(Vec<(Vec<u8>, ConfigValue)>),
}

/// Why a configuration is refused.
#[derive(Clone, Copy, Debug, PartialEq, Eq, Structural)]
pub enum ConfigError {
    NoNodeName,
    NoNodes,
    NumValidators1,
    NumValidators2,
    NumValidators3,
    SecretKeyShare,
    HexPub,
    PubBinary,
    PubNotString,
    HexPriv,
    PrivBinary,
    PrivNotString,
    NodeIdNotObject,
    HexPublicKeySet,
    PublicKeySetBinary,
    PublicKeySetNotString,
    InvalidBatchSize,
    BatchSizeParse,
    InvalidPeerId,
    HexPubkey,
    PubkeyBinary,
    NotAnObject,
}

impl ConfigError {
    /// The text of the message the loader reports.
    pub open spec fn message_text(&self) -> Seq<char> {
        match self {
            ConfigError::NoNodeName => "Could not find node name"@,
            ConfigError::NoNodes => "Nodes object should be present"@,
            ConfigError::NumValidators1 => "Invalid num_validators 1"@,
            ConfigError::NumValidators2 => "Invalid num_validators 2"@,
            ConfigError::NumValidators3 => "Invalid num_validators 3"@,
            ConfigError::SecretKeyShare => "secret_key_share"@,
            ConfigError::HexPub => "Hex error in pub"@,
            ConfigError::PubBinary => "public key binary invalid"@,
            ConfigError::PubNotString => "pub key not string"@,
            ConfigError::HexPriv => "Hex error in priv"@,
            ConfigError::PrivBinary => "secret key binary invalid"@,
            ConfigError::PrivNotString => "priv key not string"@,
            ConfigError::NodeIdNotObject => "node id not pub/priv object"@,
            ConfigError::HexPublicKeySet => "Hex error in public_key_set"@,
            ConfigError::PublicKeySetBinary => "public key set binary invalid"@,
            ConfigError::PublicKeySetNotString => "pub key set not string"@,
            ConfigError::InvalidBatchSize => "Invalid batch_size"@,
            ConfigError::BatchSizeParse => "batch_size parsing error"@,
            ConfigError::InvalidPeerId => "Invalid PeerId"@,
            ConfigError::HexPubkey => "Hex error in pubkey"@,
            ConfigError::PubkeyBinary => "public key binary invalid"@,
            ConfigError::NotAnObject => "Invalid initial_validators, should be object"@,
        }
    }

    /// The message the loader reports.
    pub fn as_str(&self) -> (r: &'static str)
        ensures
            r@ == self.message_text(),
    {
        match self {
            ConfigError::NoNodeName => "Could not find node name",
            ConfigError::NoNodes => "Nodes object should be present",
            ConfigError::NumValidators1 => "Invalid num_validators 1",
            ConfigError::NumValidators2 => "Invalid num_validators 2",
            ConfigError::NumValidators3 => "Invalid num_validators 3",
            ConfigError::SecretKeyShare => "secret_key_share",
            ConfigError::HexPub => "Hex error in pub",
            ConfigError::PubBinary => "public key binary invalid",
            ConfigError::PubNotString => "pub key not string",
            ConfigError::HexPriv => "Hex error in priv",
            ConfigError::PrivBinary => "secret key binary invalid",
            ConfigError::PrivNotString => "priv key not string",
            ConfigError::NodeIdNotObject => "node id not pub/priv object",
            ConfigError::HexPublicKeySet => "Hex error in public_key_set",
            ConfigError::PublicKeySetBinary => "public key set binary invalid",
            ConfigError::PublicKeySetNotString => "pub key set not string",
            ConfigError::InvalidBatchSize => "Invalid batch_size",
            ConfigError::BatchSizeParse => "batch_size parsing error",
            ConfigError::InvalidPeerId => "Invalid PeerId",
            ConfigError::HexPubkey => "Hex error in pubkey",
            ConfigError::PubkeyBinary => "public key binary invalid",
            ConfigError::NotAnObject => "Invalid initial_validators, should be object",
        }
    }
}

/// The value of an ASCII hex digit.
pub open spec fn hex_digit(c: u8) -> Option<u8> {
    if 48 <= c <= 57 {
        Some((c - 48) as u8)
    } else if 97 <= c <= 102 {
        Some((c - 87) as u8)
    } else if 65 <= c <= 70 {
        Some((c - 55) as u8)
    } else {
        None
    }
}

/// The bytes a hex text spells: pairs of hex digits, high digit first.
pub open spec fn hex_value(s: Seq<u8>) -> Option<Seq<u8>>
    decreases s.len(),
{
    if s.len() == 0 {
        Some(Seq::empty())
    } else if s.len() == 1 {
        None
    } else {
        match (hex_digit(s[0]), hex_digit(s[1]), hex_value(s.subrange(2, s.len() as int))) {
            (Some(h), Some(l), Some(rest)) => Some(seq![(h * 16 + l) as u8] + rest),
            _ => None,
        }
    }
}

/// The number a decimal text spells, where it is only digits.
pub open spec fn digits_value(s: Seq<u8>) -> Option<nat>
    decreases s.len(),
{
    if s.len() == 0 {
        Some(0)
    } else if 48 <= s.last() <= 57 {
        match digits_value(s.drop_last()) {
            Some(v) => Some(v * 10 + (s.last() - 48) as nat),
            None => None,
        }
    } else {
        None
    }
}

/// An unsigned number in decimal, as `str::parse` reads it: optionally a
/// `+`, then one or more digits, no larger than `max`.
pub open spec fn decimal_value(s: Seq<u8>, max: nat) -> Option<nat> {
    let digits = if s.len() > 0 && s[0] == 43 {
        s.drop_first()
    } else {
        s
    };
    if digits.len() == 0 {
        None
    } else {
        match digits_value(digits) {
            Some(v) => if v <= max {
                Some(v)
            } else {
                None
            },
            None => None,
        }
    }
}

/// Whether bytes decode with `bincode` to a public key.
pub uninterp spec fn is_public_key(bytes: Seq<u8>) -> bool;

/// Whether bytes decode with `bincode` to a secret key.
pub uninterp spec fn is_secret_key(bytes: Seq<u8>) -> bool;

/// Whether bytes decode with `bincode` to a secret key share.
pub uninterp spec fn is_secret_key_share(bytes: Seq<u8>) -> bool;

/// Whether bytes decode with `bincode` to a public key set.
pub uninterp spec fn is_public_key_set(bytes: Seq<u8>) -> bool;

/// `hex::decode`: the bytes a hex text spells, or `None` for an odd length
/// or a character that is no hex digit.
#[verifier::external_body]
fn hex_decode(s: &[u8]) -> (r: Option<Vec<u8>>)
    ensures
        match hex_value(s@) {
            Some(b) => r is Some && r.unwrap()@ == b,
            None => r is None,
        },
{
    hex::decode(s).ok()
}

/// `bincode::deserialize::<threshold_crypto::PublicKey>`; whether it
/// succeeds is named by `is_public_key`.
#[verifier::external_body]
fn decode_public_key(bytes: &[u8]) -> (r: Option<threshold_crypto::PublicKey>)
    ensures
        r is Some == is_public_key(bytes@),
{
    bincode::deserialize(bytes).ok()
}

/// `bincode::deserialize::<threshold_crypto::SecretKey>`; whether it
/// succeeds is named by `is_secret_key`.
#[verifier::external_body]
fn decode_secret_key(bytes: &[u8]) -> (r: Option<threshold_crypto::SecretKey>)
    ensures
        r is Some == is_secret_key(bytes@),
{
    bincode::deserialize(bytes).ok()
}

/// `bincode::deserialize::<threshold_crypto::SecretKeyShare>`; whether it
/// succeeds is named by `is_secret_key_share`.
#[verifier::external_body]
fn decode_secret_key_share(bytes: &[u8]) -> (r: Option<threshold_crypto::SecretKeyShare>)
    ensures
        r is Some == is_secret_key_share(bytes@),
{
    bincode::deserialize(bytes).ok()
}

/// `bincode::deserialize::<threshold_crypto::PublicKeySet>`; whether it
/// succeeds is named by `is_public_key_set`.
#[verifier::external_body]
fn decode_public_key_set(bytes: &[u8]) -> (r: Option<threshold_crypto::PublicKeySet>)
    ensures
        r is Some == is_public_key_set(bytes@),
{
    bincode::deserialize(bytes).ok()
}

/// The field `key` of an object (the last entry with that key), if any.
pub open spec fn field(v: ConfigValue, key: Seq<u8>) -> Option<ConfigValue> {
    match v {
        ConfigValue::Object(entries) => lookup(entries@, key),
        _ => None,
    }
}

/// The value of the last entry with key `key`.
pub open spec fn lookup(entries: Seq<(Vec<u8>, ConfigValue)>, key: Seq<u8>) -> Option<ConfigValue>
    decreases entries.len(),
{
    if entries.len() == 0 {
        None
    } else if entries.last().0@ == key {
        Some(entries.last().1)
    } else {
        lookup(entries.drop_last(), key)
    }
}

/// The text of a value, if it is one.
pub open spec fn text_of(v: Option<ConfigValue>) -> Option<Seq<u8>> {
    match v {
        Some(ConfigValue::Text(t)) => Some(t@),
        _ => None,
    }
}

/// A count given as a number or as decimal text; the error numbers which
/// check refused it.
pub open spec fn count_value(v: Option<ConfigValue>) -> Result<usize, u8> {
    match v {
        Some(ConfigValue::Number(n)) => match n {
            Some(y) => Ok(y as usize),
            None => Err(1),
        },
        Some(ConfigValue::Text(t)) => match decimal_value(t@, usize::MAX as nat) {
            Some(x) => Ok(x as usize),
            None => Err(2),
        },
        _ => Err(3),
    }
}

/// The batch size, given as a number or as decimal text.
pub open spec fn batch_value(v: Option<ConfigValue>) -> Result<u32, ConfigError> {
    match v {
        Some(ConfigValue::Number(n)) => match n {
            Some(y) => Ok(y as u32),
            None => Err(ConfigError::InvalidBatchSize),
        },
        Some(ConfigValue::Text(t)) => match decimal_value(t@, u32::MAX as nat) {
            Some(x) => Ok(x as u32),
            None => Err(ConfigError::BatchSizeParse),
        },
        _ => Err(ConfigError::InvalidBatchSize),
    }
}

/// A batch size given as a number is read as that number, cut to 32 bits
/// as the loader casts it.
pub proof fn lemma_numeric_batch_size(y: u64)
    ensures
        batch_value(Some(ConfigValue::Number(Some(y)))) == Ok::<u32, ConfigError>(y as u32),
{
}

/// The kinds of keys the configuration holds.
#[derive(Clone, Copy, Debug, PartialEq, Eq, Structural)]
pub enum KeyKind {
    PublicKey,
    SecretKey,
    SecretKeyShare,
    PublicKeySet,
}

/// Whether bytes decode to a key of the kind.
pub open spec fn key_ok(kind: KeyKind, b: Seq<u8>) -> bool {
    match kind {
        KeyKind::PublicKey => is_public_key(b),
        KeyKind::SecretKey => is_secret_key(b),
        KeyKind::SecretKeyShare => is_secret_key_share(b),
        KeyKind::PublicKeySet => is_public_key_set(b),
    }
}

/// The error a hex-encoded key text gives, if any: `hex` where it is no
/// hex, `binary` where its bytes are no key of the kind.
pub open spec fn key_error(t: Seq<u8>, kind: KeyKind, hex: ConfigError, binary: ConfigError) -> Option<ConfigError> {
    match hex_value(t) {
        None => Some(hex),
        Some(b) => if key_ok(kind, b) {
            None
        } else {
            Some(binary)
        },
    }
}

fn lookup_exec<'a>(entries: &'a Vec<(Vec<u8>, ConfigValue)>, key: &[u8]) -> (r: Option<&'a ConfigValue>)
    ensures
        match lookup(entries@, key@) {
            Some(v) => r is Some && *r.unwrap() == v,
            None => r is None,
        },
{
    let mut i = entries.len();
    assert(entries@.take(i as int) =~= entries@);
    while i > 0
        invariant
            0 <= i <= entries@.len(),
            lookup(entries@, key@) == lookup(entries@.take(i as int), key@),
        decreases i,
    {
        proof {
            assert(entries@.take(i as int).drop_last() =~= entries@.take(i - 1));
            assert(entries@.take(i as int).last() == entries@[i - 1]);
        }
        if whash_eq(entries[i - 1].0.as_slice(), key) {
            return Some(&entries[i - 1].1);
        }
        i = i - 1;
    }
    None
}

fn field_exec<'a>(v: &'a ConfigValue, key: &[u8]) -> (r: Option<&'a ConfigValue>)
    ensures
        match field(*v, key@) {
            Some(x) => r is Some && *r.unwrap() == x,
            None => r is None,
        },
{
    match v {
        ConfigValue::Object(entries) => lookup_exec(entries, key),
        _ => None,
    }
}

proof fn lemma_digits_prefix(s: Seq<u8>, i: int)
    requires
        0 <= i < s.len(),
        digits_value(s.take(i)) is Some,
        48 <= s[i] <= 57,
    ensures
        digits_value(s.take(i + 1)) == Some(digits_value(s.take(i)).unwrap() * 10 + (s[i] - 48) as nat),
{
    assert(s.take(i + 1).drop_last() =~= s.take(i));
    assert(s.take(i + 1).last() == s[i]);
}

proof fn lemma_digits_bad(s: Seq<u8>, i: int)
    requires
        0 <= i < s.len(),
        !(48 <= s[i] <= 57),
    ensures
        digits_value(s) is None,
    decreases s.len(),
{
    if i == s.len() - 1 {
    } else {
        assert(s.drop_last()[i] == s[i]);
        lemma_digits_bad(s.drop_last(), i);
    }
}

proof fn lemma_digits_grow(s: Seq<u8>, i: int)
    requires
        0 <= i < s.len(),
        digits_value(s) is Some,
    ensures
        digits_value(s.take(i)) is Some,
        digits_value(s.take(i)).unwrap() <= digits_value(s).unwrap(),
    decreases s.len(),
{
    if i == s.len() - 1 {
        assert(s.take(i) =~= s.drop_last());
    } else {
        assert(s.drop_last().take(i) =~= s.take(i));
        lemma_digits_grow(s.drop_last(), i);
    }
}

/// The number a decimal text spells, as `str::parse` reads an unsigned
/// integer no larger than `max`.
pub fn parse_decimal(s: &[u8], max: u64) -> (r: Option<u64>)
    ensures
        match decimal_value(s@, max as nat) {
            Some(v) => r == Some(v as u64),
            None => r is None,
        },
{
    let mut start: usize = 0;
    if s.len() > 0 && s[0] == 43u8 {
        start = 1;
    }
    let ghost digits = if s@.len() > 0 && s@[0] == 43 {
        s@.drop_first()
    } else {
        s@
    };
    proof {
        assert(digits =~= s@.skip(start as int));
    }
    if start >= s.len() {
        return None;
    }
    let mut v: u64 = 0;
    let mut i: usize = start;
    proof {
        assert(digits.take(0) =~= Seq::<u8>::empty());
    }
    while i < s.len()
        invariant
            start <= i <= s@.len(),
            digits == s@.skip(start as int),
            digits == (if s@.len() > 0 && s@[0] == 43 {
                s@.drop_first()
            } else {
                s@
            }),
            digits.len() > 0,
            digits_value(digits.take(i - start)) == Some(v as nat),
            v <= max,
        decreases s@.len() - i,
    {
        let c = s[i];
        proof {
            assert(digits[i - start] == c);
        }
        if c < 48u8 || c > 57u8 {
            proof {
                lemma_digits_bad(digits, i - start);
            }
            return None;
        }
        proof {
            lemma_digits_prefix(digits, i - start);
            assert(digits.take(i - start + 1) == digits.take(i + 1 - start));
        }
        let d = (c - 48u8) as u64;
        if d > max || v > (max - d) / 10 {
            proof {
                if d <= max {
                    assert(v * 10 + d > max) by (nonlinear_arith)
                        requires
                            v > (max - d) / 10,
                            d <= max,
                    ;
                }
                if digits_value(digits) is Some {
                    if i - start + 1 < digits.len() {
                        lemma_digits_grow(digits, i - start + 1);
                    } else {
                        assert(digits.take(i - start + 1) =~= digits);
                    }
                }
            }
            return None;
        }
        proof {
            assert(v * 10 + d <= max) by (nonlinear_arith)
                requires
                    v <= (max - d) / 10,
                    d <= max,
            ;
        }
        v = v * 10 + d;
        i = i + 1;
    }
    proof {
        assert(digits.take(i - start) =~= digits);
    }
    Some(v)
}


pub open spec fn key_nodes() -> Seq<u8> {
    seq![110u8, 111, 100, 101, 115]
}

pub open spec fn key_num_validators() -> Seq<u8> {
    seq![110u8, 117, 109, 95, 118, 97, 108, 105, 100, 97, 116, 111, 114, 115]
}

pub open spec fn key_secret_key_share() -> Seq<u8> {
    seq![115u8, 101, 99, 114, 101, 116, 95, 107, 101, 121, 95, 115, 104, 97, 114, 101]
}

pub open spec fn key_node_id() -> Seq<u8> {
    seq![110u8, 111, 100, 101, 95, 105, 100]
}

pub open spec fn key_pub() -> Seq<u8> {
    seq![112u8, 117, 98]
}

pub open spec fn key_priv() -> Seq<u8> {
    seq![112u8, 114, 105, 118]
}

pub open spec fn key_public_key_set() -> Seq<u8> {
    seq![112u8, 117, 98, 108, 105, 99, 95, 107, 101, 121, 95, 115, 101, 116]
}

pub open spec fn key_batch_size() -> Seq<u8> {
    seq![98u8, 97, 116, 99, 104, 95, 115, 105, 122, 101]
}

pub open spec fn key_initial_validators() -> Seq<u8> {
    seq![105u8, 110, 105, 116, 105, 97, 108, 95, 118, 97, 108, 105, 100, 97, 116, 111, 114, 115]
}

pub open spec fn key_node_indices() -> Seq<u8> {
    seq![110u8, 111, 100, 101, 95, 105, 110, 100, 105, 99, 101, 115]
}

/// The handle of the peer named `name` (the last such entry).
pub open spec fn peer_handle(peers: Seq<(Vec<u8>, u64)>, name: Seq<u8>) -> Option<u64>
    decreases peers.len(),
{
    if peers.len() == 0 {
        None
    } else if peers.last().0@ == name {
        Some(peers.last().1)
    } else {
        peer_handle(peers.drop_last(), name)
    }
}

/// The error an initial validator entry gives, if any.
pub open spec fn validator_entry_error(e: (Vec<u8>, ConfigValue), peers: Seq<(Vec<u8>, u64)>) -> Option<ConfigError> {
    if peer_handle(peers, e.0@) is None {
        Some(ConfigError::InvalidPeerId)
    } else {
        key_error(text_of(Some(e.1)).unwrap(), KeyKind::PublicKey, ConfigError::HexPubkey, ConfigError::PubkeyBinary)
    }
}

/// The first error among initial validator entries, if any.
pub open spec fn validators_error(s: Seq<(Vec<u8>, ConfigValue)>, peers: Seq<(Vec<u8>, u64)>) -> Option<ConfigError>
    decreases s.len(),
{
    if s.len() == 0 {
        None
    } else if validators_error(s.drop_last(), peers) is Some {
        validators_error(s.drop_last(), peers)
    } else {
        validator_entry_error(s.last(), peers)
    }
}

/// The error a node index entry gives, if any.
pub open spec fn index_entry_error(e: (Vec<u8>, ConfigValue), peers: Seq<(Vec<u8>, u64)>) -> Option<ConfigError> {
    if peer_handle(peers, e.0@) is None {
        Some(ConfigError::InvalidPeerId)
    } else {
        match count_value(Some(e.1)) {
            Ok(_) => None,
            Err(k) => Some(count_error(k)),
        }
    }
}

/// The first error among node index entries, if any.
pub open spec fn indices_error(s: Seq<(Vec<u8>, ConfigValue)>, peers: Seq<(Vec<u8>, u64)>) -> Option<ConfigError>
    decreases s.len(),
{
    if s.len() == 0 {
        None
    } else if indices_error(s.drop_last(), peers) is Some {
        indices_error(s.drop_last(), peers)
    } else {
        index_entry_error(s.last(), peers)
    }
}

/// The index of peer `h`: that of its last entry.
pub open spec fn index_of_peer(s: Seq<(Vec<u8>, ConfigValue)>, peers: Seq<(Vec<u8>, u64)>, h: u64) -> Option<usize>
    decreases s.len(),
{
    if s.len() == 0 {
        None
    } else if peer_handle(peers, s.last().0@) == Some(h) {
        match count_value(Some(s.last().1)) {
            Ok(n) => Some(n),
            Err(_) => None,
        }
    } else {
        index_of_peer(s.drop_last(), peers, h)
    }
}

/// Whether some entry names peer `h`.
pub open spec fn names_peer(s: Seq<(Vec<u8>, ConfigValue)>, peers: Seq<(Vec<u8>, u64)>, h: u64) -> bool {
    exists|i: int| 0 <= i < s.len() && peer_handle(peers, (#[trigger] s[i]).0@) == Some(h)
}

/// The error of a count check.
pub open spec fn count_error(k: u8) -> ConfigError {
    if k == 1 {
        ConfigError::NumValidators1
    } else if k == 2 {
        ConfigError::NumValidators2
    } else {
        ConfigError::NumValidators3
    }
}

/// The error the keys of the node give, if any.
pub open spec fn node_keys_error(node: ConfigValue) -> Option<ConfigError> {
    match field(node, key_node_id()) {
        Some(ConfigValue::Object(nid)) => {
            let id = ConfigValue::Object(nid);
            match text_of(field(id, key_pub())) {
                None => Some(ConfigError::PubNotString),
                Some(t) => match key_error(t, KeyKind::PublicKey, ConfigError::HexPub, ConfigError::PubBinary) {
                    Some(e) => Some(e),
                    None => match text_of(field(id, key_priv())) {
                        None => Some(ConfigError::PrivNotString),
                        Some(t2) => key_error(t2, KeyKind::SecretKey, ConfigError::HexPriv, ConfigError::PrivBinary),
                    },
                },
            }
        },
        _ => Some(ConfigError::NodeIdNotObject),
    }
}

/// The node's entry in the configuration document.
pub open spec fn node_of(spec: ConfigValue, name: Seq<u8>) -> ConfigValue {
    lookup(field(spec, key_nodes())->Some_0->Object_0@, name)->Some_0
}

/// The error a configuration gives before its initial validators are read,
/// if any: the first refused field, in the order nodes, validator count,
/// key share, node keys, public key set, batch size.
pub open spec fn pre_validators_error(spec: ConfigValue, name: Seq<u8>) -> Option<ConfigError> {
    match field(spec, key_nodes()) {
        Some(ConfigValue::Object(nodes)) => match lookup(nodes@, name) {
            None => Some(ConfigError::NoNodeName),
            Some(node) => match count_value(field(spec, key_num_validators())) {
                Err(k) => Some(count_error(k)),
                Ok(_) => {
                    let share_err = match text_of(field(node, key_secret_key_share())) {
                        Some(t) => key_error(t, KeyKind::SecretKeyShare, ConfigError::SecretKeyShare, ConfigError::SecretKeyShare),
                        None => None,
                    };
                    if share_err is Some {
                        share_err
                    } else if node_keys_error(node) is Some {
                        node_keys_error(node)
                    } else {
                        match text_of(field(spec, key_public_key_set())) {
                            None => Some(ConfigError::PublicKeySetNotString),
                            Some(t) => match key_error(t, KeyKind::PublicKeySet, ConfigError::HexPublicKeySet, ConfigError::PublicKeySetBinary) {
                                Some(e) => Some(e),
                                None => match batch_value(field(spec, key_batch_size())) {
                                    Err(e) => Some(e),
                                    Ok(_) => None,
                                },
                            },
                        }
                    }
                },
            },
        },
        _ => Some(ConfigError::NoNodes),
    }
}

/// The error a configuration gives, if any: the first refused field, in
/// the order nodes, validator count, key share, node keys, public key set,
/// batch size, initial validators, node indices.
pub open spec fn config_error(spec: ConfigValue, name: Seq<u8>, peers: Seq<(Vec<u8>, u64)>) -> Option<ConfigError> {
    if pre_validators_error(spec, name) is Some {
        pre_validators_error(spec, name)
    } else {
        match field(spec, key_initial_validators()) {
            Some(ConfigValue::Object(vals)) => if validators_error(vals@, peers) is Some {
                validators_error(vals@, peers)
            } else {
                match field(spec, key_node_indices()) {
                    Some(ConfigValue::Object(idx)) => indices_error(idx@, peers),
                    _ => Some(ConfigError::NotAnObject),
                }
            },
            _ => Some(ConfigError::NotAnObject),
        }
    }
}

/// Initial validator values are texts, as the loader expects them to be.
pub open spec fn validator_values_are_texts(spec: ConfigValue) -> bool {
    match field(spec, key_initial_validators()) {
        Some(ConfigValue::Object(vals)) => forall|i: int|
            0 <= i < vals@.len() ==> (#[trigger] vals@[i]).1 is Text,
        _ => true,
    }
}

/// The node's own key pair.
pub struct NodeKeys {
    pub public: threshold_crypto::PublicKey,
    pub secret: threshold_crypto::SecretKey,
}

/// The node's configuration.
pub struct Config {
    pub name: Option<Vec<u8>>,
    pub num_validators: usize,
    pub secret_key_share: Option<threshold_crypto::SecretKeyShare>,
    pub node_id: NodeKeys,
    pub public_key_set: threshold_crypto::PublicKeySet,
    pub batch_size: u32,
    /// Public keys by peer handle.
    pub initial_validators: Vec<(u64, threshold_crypto::PublicKey)>,
    /// Node indices by peer handle.
    pub node_indices: Vec<(u64, usize)>,
}

fn copy_bytes(b: &Vec<u8>) -> (r: Vec<u8>)
    ensures
        r@ == b@,
{
    let mut r: Vec<u8> = Vec::new();
    let mut i: usize = 0;
    while i < b.len()
        invariant
            0 <= i <= b@.len(),
            r@ == b@.take(i as int),
        decreases b@.len() - i,
    {
        r.push(b[i]);
        proof {
            assert(b@.take(i + 1) =~= b@.take(i as int).push(b@[i as int]));
        }
        i = i + 1;
    }
    assert(b@.take(i as int) =~= b@);
    r
}

fn peer_handle_exec(peers: &Vec<(Vec<u8>, u64)>, name: &Vec<u8>) -> (r: Option<u64>)
    ensures
        r == peer_handle(peers@, name@),
{
    let mut i = peers.len();
    assert(peers@.take(i as int) =~= peers@);
    while i > 0
        invariant
            0 <= i <= peers@.len(),
            peer_handle(peers@, name@) == peer_handle(peers@.take(i as int), name@),
        decreases i,
    {
        proof {
            assert(peers@.take(i as int).drop_last() =~= peers@.take(i - 1));
            assert(peers@.take(i as int).last() == peers@[i - 1]);
        }
        if whash_eq(peers[i - 1].0.as_slice(), name.as_slice()) {
            return Some(peers[i - 1].1);
        }
        i = i - 1;
    }
    None
}

/// A count given as a number or as decimal text.
fn count_exec(v: Option<&ConfigValue>) -> (r: Result<usize, ConfigError>)
    ensures
        match count_value(match v { Some(x) => Some(*x), None => None }) {
            Ok(n) => r == Ok::<usize, ConfigError>(n),
            Err(k) => r == Err::<usize, ConfigError>(count_error(k)),
        },
{
    match v {
        Some(ConfigValue::Number(n)) => match n {
            Some(y) => Ok(*y as usize),
            None => Err(ConfigError::NumValidators1),
        },
        Some(ConfigValue::Text(t)) => match parse_decimal(t.as_slice(), usize::MAX as u64) {
            Some(x) => Ok(x as usize),
            None => Err(ConfigError::NumValidators2),
        },
        _ => Err(ConfigError::NumValidators3),
    }
}

/// The batch size, given as a number or as decimal text.
fn batch_exec(v: Option<&ConfigValue>) -> (r: Result<u32, ConfigError>)
    ensures
        r == batch_value(match v { Some(x) => Some(*x), None => None }),
{
    match v {
        Some(ConfigValue::Number(n)) => match n {
            Some(y) => Ok(*y as u32),
            None => Err(ConfigError::InvalidBatchSize),
        },
        Some(ConfigValue::Text(t)) => match parse_decimal(t.as_slice(), u32::MAX as u64) {
            Some(x) => Ok(x as u32),
            None => Err(ConfigError::BatchSizeParse),
        },
        _ => Err(ConfigError::InvalidBatchSize),
    }
}


/// Decodes a hex-encoded public key.
fn public_key_from(t: &Vec<u8>, hex: ConfigError, binary: ConfigError) -> (r: Result<threshold_crypto::PublicKey, ConfigError>)
    ensures
        r is Err <==> key_error(t@, KeyKind::PublicKey, hex, binary) is Some,
        r matches Err(e) ==> key_error(t@, KeyKind::PublicKey, hex, binary) == Some(e),
{
    match hex_decode(t.as_slice()) {
        None => Err(hex),
        Some(b) => match decode_public_key(b.as_slice()) {
            Some(k) => Ok(k),
            None => Err(binary),
        },
    }
}

/// Decodes a hex-encoded secret key.
fn secret_key_from(t: &Vec<u8>, hex: ConfigError, binary: ConfigError) -> (r: Result<threshold_crypto::SecretKey, ConfigError>)
    ensures
        r is Err <==> key_error(t@, KeyKind::SecretKey, hex, binary) is Some,
        r matches Err(e) ==> key_error(t@, KeyKind::SecretKey, hex, binary) == Some(e),
{
    match hex_decode(t.as_slice()) {
        None => Err(hex),
        Some(b) => match decode_secret_key(b.as_slice()) {
            Some(k) => Ok(k),
            None => Err(binary),
        },
    }
}

/// Decodes a hex-encoded secret key share.
fn secret_share_from(t: &Vec<u8>) -> (r: Result<threshold_crypto::SecretKeyShare, ConfigError>)
    ensures
        r is Err <==> key_error(t@, KeyKind::SecretKeyShare, ConfigError::SecretKeyShare, ConfigError::SecretKeyShare) is Some,
        r matches Err(e) ==> e == ConfigError::SecretKeyShare,
{
    match hex_decode(t.as_slice()) {
        None => Err(ConfigError::SecretKeyShare),
        Some(b) => match decode_secret_key_share(b.as_slice()) {
            Some(k) => Ok(k),
            None => Err(ConfigError::SecretKeyShare),
        },
    }
}

/// Decodes a hex-encoded public key set.
fn public_key_set_from(t: &Vec<u8>) -> (r: Result<threshold_crypto::PublicKeySet, ConfigError>)
    ensures
        r is Err <==> key_error(t@, KeyKind::PublicKeySet, ConfigError::HexPublicKeySet, ConfigError::PublicKeySetBinary) is Some,
        r matches Err(e) ==> key_error(t@, KeyKind::PublicKeySet, ConfigError::HexPublicKeySet, ConfigError::PublicKeySetBinary) == Some(e),
{
    match hex_decode(t.as_slice()) {
        None => Err(ConfigError::HexPublicKeySet),
        Some(b) => match decode_public_key_set(b.as_slice()) {
            Some(k) => Ok(k),
            None => Err(ConfigError::PublicKeySetBinary),
        },
    }
}

/// The node's keys from its `node_id` object.
fn node_keys_from(node: &ConfigValue) -> (r: Result<NodeKeys, ConfigError>)
    ensures
        r is Err <==> node_keys_error(*node) is Some,
        r matches Err(e) ==> node_keys_error(*node) == Some(e),
{
    match field_exec(node, &[110u8, 111, 100, 101, 95, 105, 100]) {
        Some(id) => {
            proof {
                assert([110u8, 111, 100, 101, 95, 105, 100]@ =~= key_node_id());
            }
            match id {
                ConfigValue::Object(_) => {
                    let public = match field_exec(id, &[112u8, 117, 98]) {
                        Some(ConfigValue::Text(t)) => {
                            proof {
                                assert([112u8, 117, 98]@ =~= key_pub());
                            }
                            match public_key_from(t, ConfigError::HexPub, ConfigError::PubBinary) {
                                Ok(k) => k,
                                Err(e) => {
                                    return Err(e);
                                },
                            }
                        },
                        _ => {
                            proof {
                                assert([112u8, 117, 98]@ =~= key_pub());
                            }
                            return Err(ConfigError::PubNotString);
                        },
                    };
                    proof {
                        assert([112u8, 117, 98]@ =~= key_pub());
                        assert([112u8, 114, 105, 118]@ =~= key_priv());
                    }
                    let secret = match field_exec(id, &[112u8, 114, 105, 118]) {
                        Some(ConfigValue::Text(t)) => match secret_key_from(t, ConfigError::HexPriv, ConfigError::PrivBinary) {
                            Ok(k) => k,
                            Err(e) => {
                                return Err(e);
                            },
                        },
                        _ => {
                            return Err(ConfigError::PrivNotString);
                        },
                    };
                    Ok(NodeKeys { public, secret })
                },
                _ => Err(ConfigError::NodeIdNotObject),
            }
        },
        None => {
            proof {
                assert([110u8, 111, 100, 101, 95, 105, 100]@ =~= key_node_id());
            }
            Err(ConfigError::NodeIdNotObject)
        },
    }
}

/// The public keys of the initial validators, by peer handle.
fn validators_from(vals: &Vec<(Vec<u8>, ConfigValue)>, peers: &Vec<(Vec<u8>, u64)>) -> (r: Result<Vec<(u64, threshold_crypto::PublicKey)>, ConfigError>)
    requires
        forall|i: int| 0 <= i < vals@.len() ==> (#[trigger] vals@[i]).1 is Text,
    ensures
        r is Err <==> validators_error(vals@, peers@) is Some,
        r matches Err(e) ==> validators_error(vals@, peers@) == Some(e),
        r matches Ok(m) ==> distinct_keys(m@) && forall|h: u64| #[trigger] find_opt(m@, h) is Some <==> names_peer(vals@, peers@, h),
{
    let mut out: Vec<(u64, threshold_crypto::PublicKey)> = Vec::new();
    let mut i: usize = 0;
    while i < vals.len()
        invariant
            0 <= i <= vals@.len(),
            forall|j: int| 0 <= j < vals@.len() ==> (#[trigger] vals@[j]).1 is Text,
            validators_error(vals@.take(i as int), peers@) is None,
            distinct_keys(out@),
            forall|h: u64| #[trigger] find_opt(out@, h) is Some <==> names_peer(vals@.take(i as int), peers@, h),
        decreases vals@.len() - i,
    {
        let ghost t = vals@.take(i as int);
        let ghost t1 = vals@.take(i + 1);
        proof {
            assert(t1.drop_last() =~= t);
            assert(t1.last() == vals@[i as int]);
        }
        let h = match peer_handle_exec(peers, &vals[i].0) {
            Some(h) => h,
            None => {
                proof {
                    lemma_first_error_stays(vals@, peers@, (i + 1) as int, true);
                }
                return Err(ConfigError::InvalidPeerId);
            },
        };
        let key = match &vals[i].1 {
            ConfigValue::Text(txt) => match public_key_from(txt, ConfigError::HexPubkey, ConfigError::PubkeyBinary) {
                Ok(k) => k,
                Err(e) => {
                    proof {
                        lemma_first_error_stays(vals@, peers@, (i + 1) as int, true);
                    }
                    return Err(e);
                },
            },
            _ => {
                proof {
                    assert(vals@[i as int].1 is Text);
                }
                return Err(ConfigError::HexPubkey);
            },
        };
        let ghost out0 = out@;
        upsert(&mut out, h, key);
        proof {
            assert forall|x: u64| #[trigger] find_opt(out@, x) is Some <==> names_peer(t1, peers@, x) by {
                if names_peer(t1, peers@, x) && x != h {
                    let j = choose|j: int| 0 <= j < t1.len() && peer_handle(peers@, (#[trigger] t1[j]).0@) == Some(x);
                    assert(j < i);
                    assert(t[j] == t1[j]);
                    assert(names_peer(t, peers@, x));
                }
                if names_peer(t, peers@, x) {
                    let j = choose|j: int| 0 <= j < t.len() && peer_handle(peers@, (#[trigger] t[j]).0@) == Some(x);
                    assert(t1[j] == t[j]);
                }
                if x == h {
                    assert(peer_handle(peers@, t1[i as int].0@) == Some(x));
                }
            }
        }
        i = i + 1;
    }
    proof {
        assert(vals@.take(i as int) =~= vals@);
    }
    Ok(out)
}

/// The node indices, by peer handle.
fn indices_from(idx: &Vec<(Vec<u8>, ConfigValue)>, peers: &Vec<(Vec<u8>, u64)>) -> (r: Result<Vec<(u64, usize)>, ConfigError>)
    ensures
        r is Err <==> indices_error(idx@, peers@) is Some,
        r matches Err(e) ==> indices_error(idx@, peers@) == Some(e),
        r matches Ok(m) ==> distinct_keys(m@) && forall|h: u64| #[trigger] find_opt(m@, h) == index_of_peer(idx@, peers@, h),
{
    let mut out: Vec<(u64, usize)> = Vec::new();
    let mut i: usize = 0;
    while i < idx.len()
        invariant
            0 <= i <= idx@.len(),
            indices_error(idx@.take(i as int), peers@) is None,
            distinct_keys(out@),
            forall|h: u64| #[trigger] find_opt(out@, h) == index_of_peer(idx@.take(i as int), peers@, h),
        decreases idx@.len() - i,
    {
        let ghost t = idx@.take(i as int);
        let ghost t1 = idx@.take(i + 1);
        proof {
            assert(t1.drop_last() =~= t);
            assert(t1.last() == idx@[i as int]);
        }
        let h = match peer_handle_exec(peers, &idx[i].0) {
            Some(h) => h,
            None => {
                proof {
                    lemma_first_error_stays(idx@, peers@, (i + 1) as int, false);
                }
                return Err(ConfigError::InvalidPeerId);
            },
        };
        let n = match count_exec(Some(&idx[i].1)) {
            Ok(n) => n,
            Err(e) => {
                proof {
                    lemma_first_error_stays(idx@, peers@, (i + 1) as int, false);
                }
                return Err(e);
            },
        };
        upsert(&mut out, h, n);
        i = i + 1;
    }
    proof {
        assert(idx@.take(i as int) =~= idx@);
    }
    Ok(out)
}

/// The first error of a prefix is the first error of the whole list.
proof fn lemma_first_error_stays(s: Seq<(Vec<u8>, ConfigValue)>, peers: Seq<(Vec<u8>, u64)>, k: int, validators: bool)
    requires
        0 <= k <= s.len(),
        validators ==> validators_error(s.take(k), peers) is Some,
        !validators ==> indices_error(s.take(k), peers) is Some,
    ensures
        validators ==> validators_error(s, peers) == validators_error(s.take(k), peers),
        !validators ==> indices_error(s, peers) == indices_error(s.take(k), peers),
    decreases s.len() - k,
{
    if k < s.len() {
        assert(s.take(k + 1).drop_last() =~= s.take(k));
        lemma_first_error_stays(s, peers, k + 1, validators);
    } else {
        assert(s.take(k) =~= s);
    }
}

/// Whether reading the configuration of node `name` gets as far as its
/// initial validators: every field before them is accepted.
pub fn reaches_initial_validators(spec: &ConfigValue, name: &Vec<u8>) -> (r: bool)
    ensures
        r == (pre_validators_error(*spec, name@) is None),
{
    proof {
        assert([110u8, 111, 100, 101, 115]@ =~= key_nodes());
        assert([110u8, 117, 109, 95, 118, 97, 108, 105, 100, 97, 116, 111, 114, 115]@ =~= key_num_validators());
        assert([115u8, 101, 99, 114, 101, 116, 95, 107, 101, 121, 95, 115, 104, 97, 114, 101]@ =~= key_secret_key_share());
        assert([112u8, 117, 98, 108, 105, 99, 95, 107, 101, 121, 95, 115, 101, 116]@ =~= key_public_key_set());
        assert([98u8, 97, 116, 99, 104, 95, 115, 105, 122, 101]@ =~= key_batch_size());
    }
    let node = match field_exec(spec, &[110u8, 111, 100, 101, 115]) {
        Some(ConfigValue::Object(map)) => match lookup_exec(map, name.as_slice()) {
            Some(dat) => dat,
            None => {
                return false;
            },
        },
        _ => {
            return false;
        },
    };
    if count_exec(field_exec(spec, &[110u8, 117, 109, 95, 118, 97, 108, 105, 100, 97, 116, 111, 114, 115])).is_err() {
        return false;
    }
    match field_exec(node, &[115u8, 101, 99, 114, 101, 116, 95, 107, 101, 121, 95, 115, 104, 97, 114, 101]) {
        Some(ConfigValue::Text(st)) => {
            if secret_share_from(st).is_err() {
                return false;
            }
        },
        _ => {},
    }
    if node_keys_from(node).is_err() {
        return false;
    }
    match field_exec(spec, &[112u8, 117, 98, 108, 105, 99, 95, 107, 101, 121, 95, 115, 101, 116]) {
        Some(ConfigValue::Text(st)) => {
            if public_key_set_from(st).is_err() {
                return false;
            }
        },
        _ => {
            return false;
        },
    }
    batch_exec(field_exec(spec, &[98u8, 97, 116, 99, 104, 95, 115, 105, 122, 101])).is_ok()
}

impl Config {
    /// The configuration of node `name` in a parsed configuration document;
    /// `peers` gives the handle of each peer name that parses.
    pub fn from_value(spec: &ConfigValue, name: &Vec<u8>, peers: &Vec<(Vec<u8>, u64)>) -> (r: Result<Config, ConfigError>)
        requires
            pre_validators_error(*spec, name@) is None ==> validator_values_are_texts(*spec),
        ensures
            r is Err <==> config_error(*spec, name@, peers@) is Some,
            r matches Err(e) ==> config_error(*spec, name@, peers@) == Some(e),
            r matches Ok(c) ==> {
                &&& c.name matches Some(n) && n@ == name@
                &&& c.secret_key_share is Some <==> text_of(
                    field(node_of(*spec, name@), key_secret_key_share()),
                ) is Some
                &&& Ok::<usize, u8>(c.num_validators) == count_value(field(*spec, key_num_validators()))
                &&& Ok::<u32, ConfigError>(c.batch_size) == batch_value(field(*spec, key_batch_size()))
                &&& forall|h: u64| #[trigger] find_opt(c.node_indices@, h) == index_of_peer(
                    field(*spec, key_node_indices())->Some_0->Object_0@,
                    peers@,
                    h,
                )
                &&& forall|h: u64| #[trigger] find_opt(c.initial_validators@, h) is Some <==> names_peer(
                    field(*spec, key_initial_validators())->Some_0->Object_0@,
                    peers@,
                    h,
                )
            },
    {
        proof {
            assert([110u8, 111, 100, 101, 115]@ =~= key_nodes());
            assert([110u8, 117, 109, 95, 118, 97, 108, 105, 100, 97, 116, 111, 114, 115]@ =~= key_num_validators());
            assert([115u8, 101, 99, 114, 101, 116, 95, 107, 101, 121, 95, 115, 104, 97, 114, 101]@ =~= key_secret_key_share());
            assert([112u8, 117, 98, 108, 105, 99, 95, 107, 101, 121, 95, 115, 101, 116]@ =~= key_public_key_set());
            assert([98u8, 97, 116, 99, 104, 95, 115, 105, 122, 101]@ =~= key_batch_size());
            assert([105u8, 110, 105, 116, 105, 97, 108, 95, 118, 97, 108, 105, 100, 97, 116, 111, 114, 115]@ =~= key_initial_validators());
            assert([110u8, 111, 100, 101, 95, 105, 110, 100, 105, 99, 101, 115]@ =~= key_node_indices());
        }
        let node = match field_exec(spec, &[110u8, 111, 100, 101, 115]) {
            Some(ConfigValue::Object(map)) => match lookup_exec(map, name.as_slice()) {
                Some(dat) => dat,
                None => {
                    return Err(ConfigError::NoNodeName);
                },
            },
            _ => {
                return Err(ConfigError::NoNodes);
            },
        };
        let num_validators = match count_exec(field_exec(spec, &[110u8, 117, 109, 95, 118, 97, 108, 105, 100, 97, 116, 111, 114, 115])) {
            Ok(n) => n,
            Err(e) => {
                return Err(e);
            },
        };
        let secret_key_share = match field_exec(node, &[115u8, 101, 99, 114, 101, 116, 95, 107, 101, 121, 95, 115, 104, 97, 114, 101]) {
            Some(ConfigValue::Text(st)) => match secret_share_from(st) {
                Ok(v) => Some(v),
                Err(_) => {
                    return Err(ConfigError::SecretKeyShare);
                },
            },
            _ => None,
        };
        let node_id = match node_keys_from(node) {
            Ok(k) => k,
            Err(e) => {
                return Err(e);
            },
        };
        let public_key_set = match field_exec(spec, &[112u8, 117, 98, 108, 105, 99, 95, 107, 101, 121, 95, 115, 101, 116]) {
            Some(ConfigValue::Text(st)) => match public_key_set_from(st) {
                Ok(v) => v,
                Err(e) => {
                    return Err(e);
                },
            },
            _ => {
                return Err(ConfigError::PublicKeySetNotString);
            },
        };
        let batch_size = match batch_exec(field_exec(spec, &[98u8, 97, 116, 99, 104, 95, 115, 105, 122, 101])) {
            Ok(b) => b,
            Err(e) => {
                return Err(e);
            },
        };
        let initial_validators = match field_exec(spec, &[105u8, 110, 105, 116, 105, 97, 108, 95, 118, 97, 108, 105, 100, 97, 116, 111, 114, 115]) {
            Some(ConfigValue::Object(dict)) => match validators_from(dict, peers) {
                Ok(v) => v,
                Err(e) => {
                    return Err(e);
                },
            },
            _ => {
                return Err(ConfigError::NotAnObject);
            },
        };
        let node_indices = match field_exec(spec, &[110u8, 111, 100, 101, 95, 105, 110, 100, 105, 99, 101, 115]) {
            Some(ConfigValue::Object(dict)) => match indices_from(dict, peers) {
                Ok(v) => v,
                Err(e) => {
                    return Err(e);
                },
            },
            _ => {
                return Err(ConfigError::NotAnObject);
            },
        };
        Ok(Config {
            name: Some(copy_bytes(name)),
            num_validators,
            secret_key_share,
            node_id,
            public_key_set,
            batch_size,
            initial_validators,
            node_indices,
        })
    }
}

} // verus!
