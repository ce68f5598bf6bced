use badger_chain::htlc::{HtlcError, HtlcState, Module, Origin, SecretHash};
use sha2::Digest;

const ALICE: u64 = 1;
const BOB: u64 = 2;
const CHARLIE: u64 = 3;
const DAVE: u64 = 4;

const SYMBOL: [u8; 3] = [0x42, 0x54, 0x43];

fn sha2_256(data: &[u8]) -> SecretHash {
    let digest = sha2::Sha256::digest(data);
    let mut out = [0u8; 32];
    out.copy_from_slice(digest.as_slice());
    out
}

fn err_str(r: Result<(), HtlcError>) -> &'static str {
    r.unwrap_err().as_str()
}

#[test]
fn create_token_should_work() {
    let mut htlc = Module::new();
    let id = 0;
    let now: u64 = 0;
    assert_eq!(now, 0);
    assert_eq!(htlc.next_asset_id(), id);
    assert!(htlc.create_token(Origin::Signed(ALICE), SYMBOL.to_vec()).is_ok());
    assert_eq!(htlc.total_supply(&id), 0);
    assert_eq!(htlc.get_balance_of(&id, &ALICE), 0);
}

#[test]
fn create_htlc_should_work() {
    let now = 1000;
    let invalid_expiration = now;
    let expiration = now + 1;
    let amount = 1000;
    let secret_hash = sha2_256(&[]);

    let mut htlc = Module::new();
    assert!(htlc.create_token(Origin::Signed(ALICE), SYMBOL.to_vec()).is_ok());

    assert_eq!(
        err_str(htlc.create_htlc(
            Origin::Signed(ALICE),
            SYMBOL.to_vec(),
            BOB,
            amount,
            secret_hash,
            invalid_expiration,
            now
        )),
        "invalid expiration"
    );

    assert!(htlc
        .create_htlc(Origin::Signed(ALICE), SYMBOL.to_vec(), BOB, amount, secret_hash, expiration, now)
        .is_ok());
}

#[test]
fn htlc_cancel_should_work() {
    let now = 1000;
    let expiration = now + 1;
    let amount = 1000;
    let secret_hash = sha2_256(&[]);

    let mut htlc = Module::new();
    assert!(htlc.create_token(Origin::Signed(ALICE), SYMBOL.to_vec()).is_ok());

    assert!(htlc
        .create_htlc(Origin::Signed(ALICE), SYMBOL.to_vec(), BOB, amount, secret_hash, expiration, now)
        .is_ok());

    assert_eq!(
        err_str(htlc.cancel(Origin::Signed(ALICE), secret_hash, expiration)),
        "htlc is not expired yet"
    );

    assert!(htlc.cancel(Origin::Signed(ALICE), secret_hash, expiration + 1).is_ok());
}

#[test]
fn htlc_claim_should_work() {
    let id = 0;
    let amount = 1000;
    let secret_hash = sha2_256(&[]);
    let expiration = 1;
    let now = 0;

    let mut htlc = Module::new();
    assert!(htlc.create_token(Origin::Signed(ALICE), SYMBOL.to_vec()).is_ok());

    assert!(htlc
        .create_htlc(Origin::Signed(ALICE), SYMBOL.to_vec(), BOB, amount, secret_hash, expiration, now)
        .is_ok());

    let secret: Vec<u8> = vec![];
    assert!(htlc.claim(Origin::Signed(ALICE), secret.clone(), now).is_ok());
    assert_eq!(htlc.get_balance_of(&id, &BOB), amount);
    assert_eq!(htlc.total_supply(&id), amount);
    assert_eq!(err_str(htlc.claim(Origin::Signed(ALICE), secret, now)), "invalid htlc state");
    assert_eq!(htlc.htlc_of(&secret_hash).unwrap().state, HtlcState::Claimed);

    assert_eq!(htlc.get_balance_of(&id, &BOB), amount);
    assert_eq!(htlc.get_balance_of(&id, &CHARLIE), 0);

    assert!(htlc.transfer(Origin::Signed(BOB), SYMBOL.to_vec(), CHARLIE, amount).is_ok());

    assert_eq!(htlc.get_balance_of(&id, &BOB), 0);
    assert_eq!(htlc.get_balance_of(&id, &CHARLIE), amount);

    assert_eq!(
        err_str(htlc.transfer_from(Origin::Signed(DAVE), SYMBOL.to_vec(), CHARLIE, BOB, amount)),
        "no enough allowance"
    );

    assert_eq!(htlc.get_balance_of(&id, &CHARLIE), amount);
    assert_eq!(htlc.get_balance_of(&id, &BOB), 0);

    let approved_value = amount + 1;
    assert!(htlc.approve(Origin::Signed(CHARLIE), SYMBOL.to_vec(), DAVE, approved_value).is_ok());
    assert_eq!(htlc.get_allowance(&id, &CHARLIE, &DAVE), approved_value);

    assert_eq!(
        err_str(htlc.transfer_from(
            Origin::Signed(DAVE),
            SYMBOL.to_vec(),
            CHARLIE,
            BOB,
            approved_value
        )),
        "no enough balance"
    );
    assert_eq!(htlc.get_balance_of(&id, &CHARLIE), amount);
    assert_eq!(htlc.get_balance_of(&id, &BOB), 0);
    assert_eq!(htlc.get_allowance(&id, &CHARLIE, &DAVE), approved_value);

    assert!(htlc.transfer_from(Origin::Signed(DAVE), SYMBOL.to_vec(), CHARLIE, BOB, amount).is_ok());
    assert_eq!(htlc.get_balance_of(&id, &CHARLIE), 0);
    assert_eq!(htlc.get_balance_of(&id, &BOB), amount);
    assert_eq!(htlc.get_allowance(&id, &CHARLIE, &DAVE), 1);

    assert_eq!(htlc.total_supply(&id), amount);
}

// ----- further scenarios -----

#[test]
fn unsigned_origin_is_refused() {
    let mut htlc = Module::new();
    assert_eq!(err_str(htlc.create_token(Origin::Root, SYMBOL.to_vec())), "bad origin: expected to be a signed origin");
    assert_eq!(err_str(htlc.create_token(Origin::Unsigned, SYMBOL.to_vec())), "bad origin: expected to be a signed origin");
    assert_eq!(htlc.next_asset_id(), 0);
}

#[test]
fn duplicate_token_is_refused() {
    let mut htlc = Module::new();
    assert!(htlc.create_token(Origin::Signed(ALICE), SYMBOL.to_vec()).is_ok());
    assert_eq!(err_str(htlc.create_token(Origin::Signed(BOB), SYMBOL.to_vec())), "token already exists");
    assert!(htlc.create_token(Origin::Signed(BOB), b"ETH".to_vec()).is_ok());
    assert_eq!(htlc.next_asset_id(), 2);
    assert_eq!(htlc.asset_id_of(b"ETH"), Some(1));
    assert_eq!(htlc.owner_of(b"ETH"), Some(BOB));
    assert!(htlc.is_owner_of(&ALICE, &SYMBOL));
    assert!(!htlc.is_owner_of(&BOB, &SYMBOL));
    assert_eq!(htlc.symbol_of(&1), b"ETH".to_vec());
    assert_eq!(htlc.asset_id_of(b"XYZ"), None);
}

#[test]
fn htlc_errors_cover_every_refusal() {
    let mut htlc = Module::new();
    let h = sha2_256(b"secret");
    assert_eq!(err_str(htlc.create_htlc(Origin::Signed(ALICE), SYMBOL.to_vec(), BOB, 5, h, 10, 0)), "token does not exist");
    assert!(htlc.create_token(Origin::Signed(ALICE), SYMBOL.to_vec()).is_ok());
    assert_eq!(err_str(htlc.create_htlc(Origin::Signed(BOB), SYMBOL.to_vec(), BOB, 5, h, 10, 0)), "not owner");
    assert!(htlc.create_htlc(Origin::Signed(ALICE), SYMBOL.to_vec(), BOB, 5, h, 10, 0).is_ok());
    assert_eq!(err_str(htlc.create_htlc(Origin::Signed(ALICE), SYMBOL.to_vec(), BOB, 5, h, 10, 0)), "htlc already exists");
    assert_eq!(err_str(htlc.claim(Origin::Signed(ALICE), b"wrong".to_vec(), 0)), "no htlc bound with this secret hash");
    assert_eq!(err_str(htlc.claim(Origin::Signed(ALICE), b"secret".to_vec(), 11)), "htlc expired");
    assert_eq!(err_str(htlc.cancel(Origin::Signed(ALICE), sha2_256(b"x"), 11)), "no htlc bound with this secret hash");
    assert!(htlc.cancel(Origin::Signed(ALICE), h, 11).is_ok());
    assert_eq!(htlc.htlc_of(&h).unwrap().state, HtlcState::Canceled);
    assert_eq!(err_str(htlc.cancel(Origin::Signed(ALICE), h, 12)), "invalid htlc state");
    assert_eq!(err_str(htlc.transfer(Origin::Signed(ALICE), b"NOPE".to_vec(), BOB, 1)), "the symbol does not exist");
}

#[test]
fn claim_hashes_the_secret_with_sha256() {
    let mut htlc = Module::new();
    assert!(htlc.create_token(Origin::Signed(ALICE), SYMBOL.to_vec()).is_ok());
    // The HTLC is bound to the hash of the secret, not to the secret itself.
    let secret = b"0123456789abcdef0123456789abcdef".to_vec();
    let mut raw = [0u8; 32];
    raw.copy_from_slice(&secret);
    assert!(htlc.create_htlc(Origin::Signed(ALICE), SYMBOL.to_vec(), BOB, 7, raw, 10, 0).is_ok());
    assert_eq!(err_str(htlc.claim(Origin::Signed(BOB), secret.clone(), 0)), "no htlc bound with this secret hash");
    assert!(htlc.create_htlc(Origin::Signed(ALICE), SYMBOL.to_vec(), BOB, 7, sha2_256(&secret), 10, 0).is_ok());
    assert!(htlc.claim(Origin::Signed(BOB), secret, 0).is_ok());
    assert_eq!(htlc.get_balance_of(&0, &BOB), 7);
}

#[test]
fn burn_reduces_balance_and_supply() {
    let mut htlc = Module::new();
    let h = sha2_256(b"s");
    assert!(htlc.create_token(Origin::Signed(ALICE), SYMBOL.to_vec()).is_ok());
    assert!(htlc.create_htlc(Origin::Signed(ALICE), SYMBOL.to_vec(), BOB, 100, h, 10, 0).is_ok());
    assert!(htlc.claim(Origin::Signed(BOB), b"s".to_vec(), 10).is_ok());
    assert_eq!(err_str(htlc.burn(Origin::Signed(BOB), SYMBOL.to_vec(), 101)), "No enough balance!");
    assert!(htlc.burn(Origin::Signed(BOB), SYMBOL.to_vec(), 40).is_ok());
    assert_eq!(htlc.get_balance_of(&0, &BOB), 60);
    assert_eq!(htlc.total_supply(&0), 60);
}

#[test]
fn transfer_round_trip_restores_balances() {
    let mut htlc = Module::new();
    let h = sha2_256(b"s");
    assert!(htlc.create_token(Origin::Signed(ALICE), SYMBOL.to_vec()).is_ok());
    assert!(htlc.create_htlc(Origin::Signed(ALICE), SYMBOL.to_vec(), BOB, 100, h, 10, 0).is_ok());
    assert!(htlc.claim(Origin::Signed(BOB), b"s".to_vec(), 0).is_ok());
    assert!(htlc.transfer(Origin::Signed(BOB), SYMBOL.to_vec(), CHARLIE, 30).is_ok());
    assert!(htlc.transfer(Origin::Signed(CHARLIE), SYMBOL.to_vec(), BOB, 30).is_ok());
    assert_eq!(htlc.get_balance_of(&0, &BOB), 100);
    assert_eq!(htlc.get_balance_of(&0, &CHARLIE), 0);
    // a transfer to oneself changes nothing
    assert!(htlc.transfer(Origin::Signed(BOB), SYMBOL.to_vec(), BOB, 100).is_ok());
    assert_eq!(htlc.get_balance_of(&0, &BOB), 100);
    assert_eq!(htlc.total_supply(&0), 100);
    assert_eq!(htlc.events_len(), 7);
}
