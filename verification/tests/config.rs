use badger_chain::config::{parse_decimal, Config, ConfigError, ConfigValue};
use threshold_crypto::poly::Poly;
use threshold_crypto::serde_impl::SerdeSecret;
use threshold_crypto::{SecretKey, SecretKeySet};

fn text(s: &str) -> ConfigValue {
    ConfigValue::Text(s.as_bytes().to_vec())
}

fn obj(entries: Vec<(&str, ConfigValue)>) -> ConfigValue {
    ConfigValue::Object(entries.into_iter().map(|(k, v)| (k.as_bytes().to_vec(), v)).collect())
}

struct Keys {
    public: String,
    secret: String,
    share: String,
    set: String,
    peer_key: String,
}

fn keys() -> Keys {
    let sk = SecretKey::random();
    let sks = SecretKeySet::from(Poly::one());
    Keys {
        public: hex::encode(bincode::serialize(&sk.public_key()).unwrap()),
        secret: hex::encode(bincode::serialize(&SerdeSecret(&sk)).unwrap()),
        share: hex::encode(bincode::serialize(&SerdeSecret(sks.secret_key_share(0usize))).unwrap()),
        set: hex::encode(bincode::serialize(&sks.public_keys()).unwrap()),
        peer_key: hex::encode(bincode::serialize(&SecretKey::random().public_key()).unwrap()),
    }
}

/// A document for node "alice"; `edit` may replace top-level fields.
fn document(k: &Keys, edit: &dyn Fn(&str) -> Option<ConfigValue>) -> ConfigValue {
    let node = obj(vec![
        ("node_id", obj(vec![("pub", text(&k.public)), ("priv", text(&k.secret))])),
        ("secret_key_share", text(&k.share)),
    ]);
    let mut fields = vec![
        ("nodes", obj(vec![("alice", node)])),
        ("num_validators", ConfigValue::Number(Some(4))),
        ("public_key_set", text(&k.set)),
        ("batch_size", text("100")),
        ("initial_validators", obj(vec![("QmA", text(&k.peer_key)), ("QmB", text(&k.public))])),
        ("node_indices", obj(vec![("QmA", ConfigValue::Number(Some(0))), ("QmB", text("1"))])),
    ];
    for f in fields.iter_mut() {
        if let Some(v) = edit(f.0) {
            f.1 = v;
        }
    }
    obj(fields)
}

fn peers() -> Vec<(Vec<u8>, u64)> {
    vec![(b"QmA".to_vec(), 7), (b"QmB".to_vec(), 8)]
}

fn load(doc: &ConfigValue) -> Result<Config, ConfigError> {
    Config::from_value(doc, &b"alice".to_vec(), &peers())
}

#[test]
fn valid_document_loads() {
    let k = keys();
    let c = load(&document(&k, &|_| None)).unwrap();
    assert_eq!(c.name, Some(b"alice".to_vec()));
    assert_eq!(c.num_validators, 4);
    assert_eq!(c.batch_size, 100);
    assert!(c.secret_key_share.is_some());
    let mut idx = c.node_indices.clone();
    idx.sort();
    assert_eq!(idx, vec![(7, 0), (8, 1)]);
    let mut vals: Vec<u64> = c.initial_validators.iter().map(|(h, _)| *h).collect();
    vals.sort();
    assert_eq!(vals, vec![7, 8]);
    assert_eq!(hex::encode(bincode::serialize(&c.node_id.public).unwrap()), k.public);
}

#[test]
fn missing_node_or_nodes() {
    let k = keys();
    let doc = document(&k, &|_| None);
    assert_eq!(Config::from_value(&doc, &b"bob".to_vec(), &peers()).err(), Some(ConfigError::NoNodeName));
    let doc = document(&k, &|f| if f == "nodes" { Some(text("x")) } else { None });
    assert_eq!(load(&doc).err(), Some(ConfigError::NoNodes));
}

#[test]
fn validator_count_errors() {
    let k = keys();
    let doc = document(&k, &|f| if f == "num_validators" { Some(ConfigValue::Number(None)) } else { None });
    assert_eq!(load(&doc).err(), Some(ConfigError::NumValidators1));
    let doc = document(&k, &|f| if f == "num_validators" { Some(text("4x")) } else { None });
    assert_eq!(load(&doc).err(), Some(ConfigError::NumValidators2));
    let doc = document(&k, &|f| if f == "num_validators" { Some(ConfigValue::Bool(true)) } else { None });
    assert_eq!(load(&doc).err(), Some(ConfigError::NumValidators3));
    let doc = document(&k, &|f| if f == "num_validators" { Some(text("+12")) } else { None });
    assert_eq!(load(&doc).unwrap().num_validators, 12);
}

#[test]
fn key_errors() {
    let k = keys();
    let doc = document(&k, &|f| if f == "public_key_set" { Some(text("zz")) } else { None });
    assert_eq!(load(&doc).err(), Some(ConfigError::HexPublicKeySet));
    let doc = document(&k, &|f| if f == "public_key_set" { Some(text("00")) } else { None });
    assert_eq!(load(&doc).err(), Some(ConfigError::PublicKeySetBinary));
    let doc = document(&k, &|f| if f == "public_key_set" { Some(ConfigValue::Null) } else { None });
    assert_eq!(load(&doc).err(), Some(ConfigError::PublicKeySetNotString));
    let bad_node = |pubk: ConfigValue| {
        obj(vec![("alice", obj(vec![("node_id", obj(vec![("pub", pubk), ("priv", text(&k.secret))]))]))])
    };
    let doc = document(&k, &|f| if f == "nodes" { Some(bad_node(text("q"))) } else { None });
    assert_eq!(load(&doc).err(), Some(ConfigError::HexPub));
    let doc = document(&k, &|f| if f == "nodes" { Some(bad_node(ConfigValue::Bool(false))) } else { None });
    assert_eq!(load(&doc).err(), Some(ConfigError::PubNotString));
    let doc = document(&k, &|f| if f == "nodes" { Some(obj(vec![("alice", obj(vec![]))])) } else { None });
    assert_eq!(load(&doc).err(), Some(ConfigError::NodeIdNotObject));
}

#[test]
fn batch_size_and_validator_errors() {
    let k = keys();
    let doc = document(&k, &|f| if f == "batch_size" { Some(text("-1")) } else { None });
    assert_eq!(load(&doc).err(), Some(ConfigError::BatchSizeParse));
    let doc = document(&k, &|f| if f == "batch_size" { Some(ConfigValue::Array(vec![])) } else { None });
    assert_eq!(load(&doc).err(), Some(ConfigError::InvalidBatchSize));
    let doc = document(&k, &|f| if f == "initial_validators" { Some(obj(vec![("QmZ", text(&k.public))])) } else { None });
    assert_eq!(load(&doc).err(), Some(ConfigError::InvalidPeerId));
    let doc = document(&k, &|f| if f == "initial_validators" { Some(obj(vec![("QmA", text("0"))])) } else { None });
    assert_eq!(load(&doc).err(), Some(ConfigError::HexPubkey));
    let doc = document(&k, &|f| if f == "initial_validators" { Some(text("x")) } else { None });
    assert_eq!(load(&doc).err(), Some(ConfigError::NotAnObject));
    let doc = document(&k, &|f| if f == "node_indices" { Some(ConfigValue::Null) } else { None });
    assert_eq!(load(&doc).err(), Some(ConfigError::NotAnObject));
}

#[test]
fn decimal_parsing() {
    assert_eq!(parse_decimal(b"123", 1000), Some(123));
    assert_eq!(parse_decimal(b"+7", 1000), Some(7));
    assert_eq!(parse_decimal(b"1001", 1000), None);
    assert_eq!(parse_decimal(b"", 1000), None);
    assert_eq!(parse_decimal(b"+", 1000), None);
    assert_eq!(parse_decimal(b"1a", 1000), None);
    assert_eq!(parse_decimal(b"18446744073709551615", u64::MAX), Some(u64::MAX));
}

#[test]
fn config_error_messages() {
    assert_eq!(ConfigError::NoNodeName.as_str(), "Could not find node name");
    assert_eq!(ConfigError::NotAnObject.as_str(), "Invalid initial_validators, should be object");
}
