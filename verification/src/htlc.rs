//! Token ledger with hashed time-locked contracts (HTLC).
//!
//! Tokens are created under a symbol; an HTLC promises `amount` units of a
//! token to a buyer, minted when the secret whose SHA-256 is the HTLC's hash
//! is revealed before expiration, or cancellable after expiration.

use vstd::prelude::*;
use crate::assoc::{find_opt, distinct_keys, lemma_find_absent, lemma_find_at, lemma_set_at, lemma_push_new, lookup, total, unique_keys, has_key, find_key, lemma_lookup_absent, lemma_lookup_at, lemma_update, lemma_push, lemma_bounds, lemma_single};
use sha2::Digest;

verus! {

pub type AssetId = u64;

pub type AccountId = u64;

pub type Balance = u64;

pub type Moment = u64;

/// SHA-256 hash of an HTLC secret.
pub type SecretHash = [u8; 32];

pub type Symbol = Vec<u8>;

pub type Secret = Vec<u8>;

/// SHA-256 digest of `data`, as computed by the `sha2` crate.
pub uninterp spec fn sha2_256(data: Seq<u8>) -> Seq<u8>;

/// Calls `sha2::Sha256::digest`: the contract names the 32-byte digest of the
/// input by `sha2_256`; nothing about SHA-256 itself is stated.
#[verifier::external_body]
fn hash_of(secret: &[u8]) -> (h: SecretHash)
    ensures
        h@ == sha2_256(secret@),
{
    let digest = sha2::Sha256::digest(secret);
    let mut out = [0u8; 32];
    out.copy_from_slice(digest.as_slice());
    out
}

/// Who dispatched a call.
pub enum Origin {
    Signed(AccountId),
    Root,
    Unsigned,
}

#[derive(Debug, PartialEq, Eq, Structural, Clone, Copy)]
pub enum HtlcState {
    Created,
    Claimed,
    Canceled,
}

pub struct TokenInfo {
    pub symbol: Symbol,
    pub asset_id: AssetId,
    pub owner: AccountId,
}

pub struct HtlcInfo {
    pub buyer: AccountId,
    pub symbol: Symbol,
    pub asset_id: AssetId,
    pub amount: Balance,
    pub expiration_in_ms: Moment,
    pub secret_hash: SecretHash,
    pub state: HtlcState,
}

/// Mathematical view of an HTLC record.
pub struct HtlcView {
    pub buyer: AccountId,
    pub symbol: Seq<u8>,
    pub asset_id: AssetId,
    pub amount: Balance,
    pub expiration_in_ms: Moment,
    pub secret_hash: Seq<u8>,
    pub state: HtlcState,
}

impl HtlcInfo {
    pub open spec fn view(&self) -> HtlcView {
        HtlcView {
            buyer: self.buyer,
            symbol: self.symbol@,
            asset_id: self.asset_id,
            amount: self.amount,
            expiration_in_ms: self.expiration_in_ms,
            secret_hash: self.secret_hash@,
            state: self.state,
        }
    }
}

/// Events emitted by the ledger.
pub enum Event {
    TokenCreated(Symbol, AssetId),
    HtlcCreated(Symbol, Balance, AccountId, SecretHash),
    HtlcClaimed(Symbol, Balance, AccountId, SecretHash),
    HtlcCanceled(Symbol, Balance, AccountId, SecretHash),
    Transfer(AssetId, Option<AccountId>, Option<AccountId>, Balance),
    Approval(AssetId, AccountId, AccountId, Balance),
}

/// Mathematical view of an event.
pub enum EventView {
    TokenCreated(Seq<u8>, AssetId),
    HtlcCreated(Seq<u8>, Balance, AccountId, Seq<u8>),
    HtlcClaimed(Seq<u8>, Balance, AccountId, Seq<u8>),
    HtlcCanceled(Seq<u8>, Balance, AccountId, Seq<u8>),
    Transfer(AssetId, Option<AccountId>, Option<AccountId>, Balance),
    Approval(AssetId, AccountId, AccountId, Balance),
}

impl Event {
    pub open spec fn view(&self) -> EventView {
        match self {
            Event::TokenCreated(s, a) => EventView::TokenCreated(s@, *a),
            Event::HtlcCreated(s, m, b, h) => EventView::HtlcCreated(s@, *m, *b, h@),
            Event::HtlcClaimed(s, m, b, h) => EventView::HtlcClaimed(s@, *m, *b, h@),
            Event::HtlcCanceled(s, m, b, h) => EventView::HtlcCanceled(s@, *m, *b, h@),
            Event::Transfer(a, f, t, m) => EventView::Transfer(*a, *f, *t, *m),
            Event::Approval(a, o, s, m) => EventView::Approval(*a, *o, *s, *m),
        }
    }
}

/// Reasons a call is refused.
#[derive(Debug, PartialEq, Eq, Structural, Clone, Copy)]
pub enum HtlcError {
    BadOrigin,
    TokenAlreadyExists,
    HtlcAlreadyExists,
    NotOwner,
    InvalidExpiration,
    TokenDoesNotExist,
    HtlcExpired,
    InvalidHtlcState,
    NoHtlcForHash,
    HtlcNotExpired,
    SymbolDoesNotExist,
    NoEnoughAllowance,
    NoEnoughBalance,
    BurnExceedsBalance,
}

impl HtlcError {
    /// The text of the message the runtime reports for this error.
    pub open spec fn message_text(&self) -> Seq<char> {
        match self {
            HtlcError::BadOrigin => "bad origin: expected to be a signed origin"@,
            HtlcError::TokenAlreadyExists => "token already exists"@,
            HtlcError::HtlcAlreadyExists => "htlc already exists"@,
            HtlcError::NotOwner => "not owner"@,
            HtlcError::InvalidExpiration => "invalid expiration"@,
            HtlcError::TokenDoesNotExist => "token does not exist"@,
            HtlcError::HtlcExpired => "htlc expired"@,
            HtlcError::InvalidHtlcState => "invalid htlc state"@,
            HtlcError::NoHtlcForHash => "no htlc bound with this secret hash"@,
            HtlcError::HtlcNotExpired => "htlc is not expired yet"@,
            HtlcError::SymbolDoesNotExist => "the symbol does not exist"@,
            HtlcError::NoEnoughAllowance => "no enough allowance"@,
            HtlcError::NoEnoughBalance => "no enough balance"@,
            HtlcError::BurnExceedsBalance => "No enough balance!"@,
        }
    }

    /// The message the runtime reports for this error.
    pub fn as_str(&self) -> (r: &'static str)
        ensures
            r@ == self.message_text(),
    {
        match self {
            HtlcError::BadOrigin => "bad origin: expected to be a signed origin",
            HtlcError::TokenAlreadyExists => "token already exists",
            HtlcError::HtlcAlreadyExists => "htlc already exists",
            HtlcError::NotOwner => "not owner",
            HtlcError::InvalidExpiration => "invalid expiration",
            HtlcError::TokenDoesNotExist => "token does not exist",
            HtlcError::HtlcExpired => "htlc expired",
            HtlcError::InvalidHtlcState => "invalid htlc state",
            HtlcError::NoHtlcForHash => "no htlc bound with this secret hash",
            HtlcError::HtlcNotExpired => "htlc is not expired yet",
            HtlcError::SymbolDoesNotExist => "the symbol does not exist",
            HtlcError::NoEnoughAllowance => "no enough allowance",
            HtlcError::NoEnoughBalance => "no enough balance",
            HtlcError::BurnExceedsBalance => "No enough balance!",
        }
    }
}

/// One allowance entry: (asset, owner, spender) may move `amount`.
pub struct Allowance {
    pub asset_id: AssetId,
    pub owner: AccountId,
    pub spender: AccountId,
    pub amount: Balance,
}

/// The ledger state.
pub struct Module {
    /// Per asset id: (account, balance) entries.
    balances: Vec<Vec<(AccountId, Balance)>>,
    allowances: Vec<Allowance>,
    next_asset_id: AssetId,
    /// Per asset id: total supply.
    supply: Vec<Balance>,
    /// Per asset id: symbol.
    symbols: Vec<Symbol>,
    tokens: Vec<TokenInfo>,
    htlcs: Vec<HtlcInfo>,
    events: Vec<Event>,
}

pub open spec fn signer_of(origin: Origin) -> Option<AccountId> {
    match origin {
        Origin::Signed(w) => Some(w),
        _ => None,
    }
}

fn ensure_signed(origin: Origin) -> (r: Result<AccountId, HtlcError>)
    ensures
        match signer_of(origin) {
            Some(w) => r == Ok::<AccountId, HtlcError>(w),
            None => r == Err::<AccountId, HtlcError>(HtlcError::BadOrigin),
        },
{
    match origin {
        Origin::Signed(w) => Ok(w),
        _ => Err(HtlcError::BadOrigin),
    }
}

/// The index `a` when it is below `len`.
fn index_below(a: u64, len: usize) -> (r: Option<usize>)
    ensures
        match r {
            Some(i) => i == a && a < len,
            None => a >= len,
        },
{
    if a < len as u64 {
        Some(a as usize)
    } else {
        None
    }
}

fn bytes_eq(a: &[u8], b: &[u8]) -> (r: bool)
    ensures
        r == (a@ == b@),
{
    if a.len() != b.len() {
        return false;
    }
    let mut i: usize = 0;
    while i < a.len()
        invariant
            a@.len() == b@.len(),
            0 <= i <= a@.len(),
            forall|j: int| 0 <= j < i ==> a@[j] == b@[j],
        decreases a@.len() - i,
    {
        if a[i] != b[i] {
            return false;
        }
        i = i + 1;
    }
    assert(a@ =~= b@);
    true
}

fn copy_bytes(v: &Vec<u8>) -> (r: Vec<u8>)
    ensures
        r@ == v@,
{
    let mut out: Vec<u8> = Vec::new();
    let mut i: usize = 0;
    while i < v.len()
        invariant
            0 <= i <= v@.len(),
            out@ == v@.subrange(0, i as int),
        decreases v@.len() - i,
    {
        out.push(v[i]);
        i = i + 1;
        assert(out@ =~= v@.subrange(0, i as int));
    }
    assert(v@.subrange(0, v@.len() as int) =~= v@);
    out
}

impl HtlcInfo {
    fn copy(&self) -> (r: HtlcInfo)
        ensures
            r@ == self@,
    {
        HtlcInfo {
            buyer: self.buyer,
            symbol: copy_bytes(&self.symbol),
            asset_id: self.asset_id,
            amount: self.amount,
            expiration_in_ms: self.expiration_in_ms,
            secret_hash: self.secret_hash,
            state: self.state,
        }
    }
}

/// Whether a token's view is (symbol, asset, owner).
pub open spec fn token_view(t: TokenInfo) -> (Seq<u8>, AssetId, AccountId) {
    (t.symbol@, t.asset_id, t.owner)
}

impl Module {
    // ---------------------------------------------------------------
    // Model
    // ---------------------------------------------------------------
    /// The (account, balance) entries of an asset.
    pub closed spec fn holders(&self, a: AssetId) -> Seq<(AccountId, Balance)> {
        if a < self.balances@.len() {
            self.balances@[a as int]@
        } else {
            Seq::empty()
        }
    }

    pub open spec fn balance_of_spec(&self, a: AssetId, w: AccountId) -> nat {
        lookup(self.holders(a), w)
    }

    pub closed spec fn supply_of(&self, a: AssetId) -> nat {
        if a < self.supply@.len() {
            self.supply@[a as int] as nat
        } else {
            0
        }
    }

    pub closed spec fn next_id(&self) -> AssetId {
        self.next_asset_id
    }

    pub closed spec fn allowance_entries(&self) -> Seq<((AssetId, AccountId, AccountId), Balance)> {
        self.allowances@.map_values(|e: Allowance| ((e.asset_id, e.owner, e.spender), e.amount))
    }

    pub closed spec fn allowance_of(&self, a: AssetId, o: AccountId, s: AccountId) -> nat {
        match find_opt(self.allowance_entries(), (a, o, s)) {
            Some(v) => v as nat,
            None => 0,
        }
    }

    pub closed spec fn token_entries(&self) -> Seq<(Seq<u8>, (AssetId, AccountId))> {
        self.tokens@.map_values(|t: TokenInfo| (t.symbol@, (t.asset_id, t.owner)))
    }

    /// The token registered under a symbol, as (asset, owner).
    pub closed spec fn token(&self, sym: Seq<u8>) -> Option<(AssetId, AccountId)> {
        find_opt(self.token_entries(), sym)
    }

    pub closed spec fn symbol_at(&self, a: AssetId) -> Seq<u8> {
        if a < self.symbols@.len() {
            self.symbols@[a as int]@
        } else {
            Seq::empty()
        }
    }

    pub closed spec fn htlc_entries(&self) -> Seq<(Seq<u8>, HtlcView)> {
        self.htlcs@.map_values(|h: HtlcInfo| (h.secret_hash@, h@))
    }

    /// The HTLC registered under a hash.
    pub closed spec fn htlc(&self, h: Seq<u8>) -> Option<HtlcView> {
        find_opt(self.htlc_entries(), h)
    }

    pub closed spec fn event_log(&self) -> Seq<EventView> {
        self.events@.map_values(|e: Event| e@)
    }

    /// Internal consistency of the ledger.
    pub closed spec fn wf(&self) -> bool {
        &&& self.balances@.len() == self.next_asset_id
        &&& self.supply@.len() == self.next_asset_id
        &&& self.symbols@.len() == self.next_asset_id
        &&& forall|a: int|
            0 <= a < self.balances@.len() ==> {
                &&& unique_keys(#[trigger] self.balances@[a]@)
                &&& total(self.balances@[a]@) == self.supply@[a] as nat
            }
        &&& distinct_keys(self.token_entries())
        &&& forall|i: int| 0 <= i < self.tokens@.len() ==> self.tokens@[i].asset_id < self.next_asset_id
        &&& distinct_keys(self.htlc_entries())
        &&& forall|i: int| 0 <= i < self.htlcs@.len() ==> self.htlcs@[i].asset_id < self.next_asset_id
        &&& distinct_keys(self.allowance_entries())
    }

    /// Everything but the balances, supplies and events is the same.
    pub open spec fn same_registry(&self, other: &Module) -> bool {
        &&& forall|s: Seq<u8>| #[trigger] self.token(s) == other.token(s)
        &&& forall|h: Seq<u8>| #[trigger] self.htlc(h) == other.htlc(h)
        &&& forall|a: AssetId| #[trigger] self.symbol_at(a) == other.symbol_at(a)
        &&& self.next_id() == other.next_id()
    }

    pub open spec fn same_allowances(&self, other: &Module) -> bool {
        forall|a: AssetId, o: AccountId, s: AccountId| #[trigger]
            self.allowance_of(a, o, s) == other.allowance_of(a, o, s)
    }

    pub open spec fn same_balances(&self, other: &Module) -> bool {
        &&& forall|a: AssetId, w: AccountId| #[trigger]
            self.balance_of_spec(a, w) == other.balance_of_spec(a, w)
        &&& forall|a: AssetId| #[trigger] self.supply_of(a) == other.supply_of(a)
    }

    /// Balances after `amount` moves from `from` to `to` in asset `asset`.
    pub open spec fn transferred(
        &self,
        old: &Module,
        asset: AssetId,
        from: AccountId,
        to: AccountId,
        amount: Balance,
    ) -> bool {
        &&& forall|a: AssetId, w: AccountId| #[trigger]
            self.balance_of_spec(a, w) == if a == asset && from != to && w == from {
                (old.balance_of_spec(a, w) - amount) as nat
            } else if a == asset && from != to && w == to {
                (old.balance_of_spec(a, w) + amount) as nat
            } else {
                old.balance_of_spec(a, w)
            }
        &&& forall|a: AssetId| #[trigger] self.supply_of(a) == old.supply_of(a)
    }

    /// Every HTLC still open can be minted without exceeding `u64::MAX` supply.
    pub open spec fn mint_fits(&self, h: Seq<u8>) -> bool {
        match self.htlc(h) {
            Some(v) => v.state == HtlcState::Created ==> self.supply_of(v.asset_id) + v.amount
                <= u64::MAX,
            None => true,
        }
    }

    pub open spec fn mints_fit(&self) -> bool {
        forall|h: Seq<u8>| #[trigger] self.mint_fits(h)
    }

    // ---------------------------------------------------------------
    // Construction and storage getters
    // ---------------------------------------------------------------
    /// An empty ledger.
    pub fn new() -> (m: Module)
        ensures
            m.wf(),
            m.next_id() == 0,
            forall|a: AssetId, w: AccountId| #[trigger] m.balance_of_spec(a, w) == 0,
            forall|a: AssetId| #[trigger] m.supply_of(a) == 0,
            forall|a: AssetId, o: AccountId, s: AccountId| #[trigger] m.allowance_of(a, o, s) == 0,
            forall|s: Seq<u8>| #[trigger] m.token(s) == None::<(AssetId, AccountId)>,
            forall|h: Seq<u8>| #[trigger] m.htlc(h) == None::<HtlcView>,
            m.event_log() == Seq::<EventView>::empty(),
    {
        let m = Module {
            balances: Vec::new(),
            allowances: Vec::new(),
            next_asset_id: 0,
            supply: Vec::new(),
            symbols: Vec::new(),
            tokens: Vec::new(),
            htlcs: Vec::new(),
            events: Vec::new(),
        };
        assert(m.event_log() =~= Seq::<EventView>::empty());
        m
    }

    /// The id the next created token will get.
    pub fn next_asset_id(&self) -> (r: AssetId)
        ensures
            r == self.next_id(),
    {
        self.next_asset_id
    }

    /// Total supply of an asset (0 for unknown assets).
    pub fn total_supply(&self, asset_id: &AssetId) -> (r: Balance)
        requires
            self.wf(),
        ensures
            r == self.supply_of(*asset_id),
    {
        match index_below(*asset_id, self.supply.len()) {
            Some(i) => self.supply[i],
            None => 0,
        }
    }

    /// The symbol of an asset (empty for unknown assets).
    pub fn symbol_of(&self, asset_id: &AssetId) -> (r: Symbol)
        requires
            self.wf(),
        ensures
            r@ == self.symbol_at(*asset_id),
    {
        match index_below(*asset_id, self.symbols.len()) {
            Some(i) => copy_bytes(&self.symbols[i]),
            None => Vec::new(),
        }
    }

    /// The events emitted so far.
    pub fn events_len(&self) -> (r: usize)
        ensures
            r == self.event_log().len(),
    {
        self.events.len()
    }

    fn find_token(&self, symbol: &[u8]) -> (r: Option<usize>)
        requires
            self.wf(),
        ensures
            match r {
                Some(i) => i < self.tokens@.len() && self.tokens@[i as int].symbol@ == symbol@
                    && self.token(symbol@) == Some(
                    (self.tokens@[i as int].asset_id, self.tokens@[i as int].owner),
                ),
                None => self.token(symbol@) == None::<(AssetId, AccountId)> && forall|j: int|
                    0 <= j < self.tokens@.len() ==> self.tokens@[j].symbol@ != symbol@,
            },
    {
        let ghost es = self.token_entries();
        let mut i: usize = 0;
        while i < self.tokens.len()
            invariant
                self.wf(),
                es == self.token_entries(),
                0 <= i <= self.tokens@.len(),
                forall|j: int| 0 <= j < i ==> self.tokens@[j].symbol@ != symbol@,
            decreases self.tokens@.len() - i,
        {
            if bytes_eq(self.tokens[i].symbol.as_slice(), symbol) {
                proof {
                    lemma_find_at(es, i as int);
                }
                return Some(i);
            }
            i = i + 1;
        }
        proof {
            assert forall|j: int| 0 <= j < es.len() implies es[j].0 != symbol@ by {}
            lemma_find_absent(es, symbol@);
        }
        None
    }

    fn find_htlc(&self, secret_hash: &SecretHash) -> (r: Option<usize>)
        requires
            self.wf(),
        ensures
            match r {
                Some(i) => i < self.htlcs@.len() && self.htlcs@[i as int].secret_hash@
                    == secret_hash@ && self.htlc(secret_hash@) == Some(self.htlcs@[i as int]@),
                None => self.htlc(secret_hash@) == None::<HtlcView> && forall|j: int|
                    0 <= j < self.htlcs@.len() ==> self.htlcs@[j].secret_hash@ != secret_hash@,
            },
    {
        let ghost es = self.htlc_entries();
        let mut i: usize = 0;
        while i < self.htlcs.len()
            invariant
                self.wf(),
                es == self.htlc_entries(),
                0 <= i <= self.htlcs@.len(),
                forall|j: int| 0 <= j < i ==> self.htlcs@[j].secret_hash@ != secret_hash@,
            decreases self.htlcs@.len() - i,
        {
            if bytes_eq(&self.htlcs[i].secret_hash, secret_hash) {
                proof {
                    lemma_find_at(es, i as int);
                }
                return Some(i);
            }
            i = i + 1;
        }
        proof {
            assert forall|j: int| 0 <= j < es.len() implies es[j].0 != secret_hash@ by {}
            lemma_find_absent(es, secret_hash@);
        }
        None
    }

    fn find_allowance(&self, asset_id: AssetId, owner: AccountId, spender: AccountId) -> (r:
        Option<usize>)
        requires
            self.wf(),
        ensures
            match r {
                Some(i) => i < self.allowances@.len() && self.allowances@[i as int].asset_id
                    == asset_id && self.allowances@[i as int].owner == owner
                    && self.allowances@[i as int].spender == spender && self.allowance_of(
                    asset_id,
                    owner,
                    spender,
                ) == self.allowances@[i as int].amount,
                None => self.allowance_of(asset_id, owner, spender) == 0 && forall|j: int|
                    0 <= j < self.allowances@.len() ==> !(self.allowances@[j].asset_id == asset_id
                        && self.allowances@[j].owner == owner && self.allowances@[j].spender
                        == spender),
            },
    {
        let ghost es = self.allowance_entries();
        let mut i: usize = 0;
        while i < self.allowances.len()
            invariant
                self.wf(),
                es == self.allowance_entries(),
                0 <= i <= self.allowances@.len(),
                forall|j: int|
                    0 <= j < i ==> !(self.allowances@[j].asset_id == asset_id
                        && self.allowances@[j].owner == owner && self.allowances@[j].spender
                        == spender),
            decreases self.allowances@.len() - i,
        {
            let e = &self.allowances[i];
            if e.asset_id == asset_id && e.owner == owner && e.spender == spender {
                proof {
                    lemma_find_at(es, i as int);
                }
                return Some(i);
            }
            i = i + 1;
        }
        proof {
            assert forall|j: int| 0 <= j < es.len() implies es[j].0 != (asset_id, owner, spender) by {}
            lemma_find_absent(es, (asset_id, owner, spender));
        }
        None
    }

    // ---------------------------------------------------------------
    // Public read API
    // ---------------------------------------------------------------
    /// Balance of `who` in asset `asset_id` (0 when none recorded).
    pub fn get_balance_of(&self, asset_id: &AssetId, who: &AccountId) -> (r: Balance)
        requires
            self.wf(),
        ensures
            r == self.balance_of_spec(*asset_id, *who),
    {
        let idx = match index_below(*asset_id, self.balances.len()) {
            Some(i) => i,
            None => {
                proof {
                    lemma_lookup_absent(Seq::<(u64, u64)>::empty(), *who);
                }
                return 0;
            },
        };
        let list = &self.balances[idx];
        match find_key(list, *who) {
            Some(i) => {
                proof {
                    lemma_lookup_at(list@, i as int);
                }
                list[i].1
            },
            None => {
                proof {
                    lemma_lookup_absent(list@, *who);
                }
                0
            },
        }
    }

    /// What `spender` may still move out of `owner`'s balance of `asset_id`.
    pub fn get_allowance(&self, asset_id: &AssetId, owner: &AccountId, spender: &AccountId) -> (r:
        Balance)
        requires
            self.wf(),
        ensures
            r == self.allowance_of(*asset_id, *owner, *spender),
    {
        match self.find_allowance(*asset_id, *owner, *spender) {
            Some(i) => self.allowances[i].amount,
            None => 0,
        }
    }

    /// The asset id registered under a symbol.
    pub fn asset_id_of(&self, symbol: &[u8]) -> (r: Option<AssetId>)
        requires
            self.wf(),
        ensures
            r == match self.token(symbol@) {
                Some(t) => Some(t.0),
                None => None::<AssetId>,
            },
    {
        match self.find_token(symbol) {
            Some(i) => Some(self.tokens[i].asset_id),
            None => None,
        }
    }

    /// The owner of the token registered under a symbol.
    pub fn owner_of(&self, symbol: &[u8]) -> (r: Option<AccountId>)
        requires
            self.wf(),
        ensures
            r == match self.token(symbol@) {
                Some(t) => Some(t.1),
                None => None::<AccountId>,
            },
    {
        match self.find_token(symbol) {
            Some(i) => Some(self.tokens[i].owner),
            None => None,
        }
    }

    /// Whether `who` owns the token registered under `symbol`.
    pub fn is_owner_of(&self, who: &AccountId, symbol: &[u8]) -> (r: bool)
        requires
            self.wf(),
        ensures
            r == (self.token(symbol@) matches Some(t) && t.1 == *who),
    {
        match self.owner_of(symbol) {
            Some(o) => o == *who,
            None => false,
        }
    }

    /// The token registered under a symbol, as (asset id, owner).
    pub fn token_of(&self, symbol: &[u8]) -> (r: Option<(AssetId, AccountId)>)
        requires
            self.wf(),
        ensures
            r == self.token(symbol@),
    {
        match self.find_token(symbol) {
            Some(i) => Some((self.tokens[i].asset_id, self.tokens[i].owner)),
            None => None,
        }
    }

    /// The HTLC registered under a hash.
    pub fn htlc_of(&self, secret_hash: &SecretHash) -> (r: Option<HtlcInfo>)
        requires
            self.wf(),
        ensures
            match r {
                Some(v) => self.htlc(secret_hash@) == Some(v@),
                None => self.htlc(secret_hash@) == None::<HtlcView>,
            },
    {
        match self.find_htlc(secret_hash) {
            Some(i) => Some(self.htlcs[i].copy()),
            None => None,
        }
    }
}


fn set_entry(list: &mut Vec<(u64, u64)>, w: u64, v: u64)
    requires
        unique_keys(old(list)@),
    ensures
        unique_keys(final(list)@),
        forall|k: u64|
            #[trigger] lookup(final(list)@, k) == if k == w {
                v as nat
            } else {
                lookup(old(list)@, k)
            },
        total(final(list)@) + lookup(old(list)@, w) == total(old(list)@) + v,
{
    match find_key(list, w) {
        Some(i) => {
            proof {
                lemma_update(list@, i as int, v);
                lemma_lookup_at(list@, i as int);
            }
            list.set(i, (w, v));
        },
        None => {
            proof {
                lemma_lookup_absent(list@, w);
                lemma_push(list@, w, v);
            }
            list.push((w, v));
        },
    }
}

impl Module {
    /// All fields but the events are the same.
    closed spec fn same_but_events(&self, other: &Module) -> bool {
        &&& self.balances == other.balances
        &&& self.allowances == other.allowances
        &&& self.next_asset_id == other.next_asset_id
        &&& self.supply == other.supply
        &&& self.symbols == other.symbols
        &&& self.tokens == other.tokens
        &&& self.htlcs == other.htlcs
    }

    fn deposit_event(&mut self, e: Event)
        ensures
            final(self).same_but_events(old(self)),
            old(self).wf() ==> final(self).wf(),
            forall|h: Seq<u8>| #[trigger] final(self).htlc(h) == old(self).htlc(h),
            forall|s: Seq<u8>| #[trigger] final(self).token(s) == old(self).token(s),
            forall|a: AssetId| #[trigger] final(self).symbol_at(a) == old(self).symbol_at(a),
            final(self).next_id() == old(self).next_id(),
            final(self).same_balances(old(self)),
            final(self).same_allowances(old(self)),
            final(self).event_log() == old(self).event_log().push(e@),
    {
        self.events.push(e);
        proof {
            assert(self.event_log() =~= old(self).event_log().push(e@));
        }
    }

    fn holder_balance(&self, idx: usize, w: u64) -> (r: u64)
        requires
            idx < self.balances@.len(),
            unique_keys(self.balances@[idx as int]@),
        ensures
            r == lookup(self.balances@[idx as int]@, w),
    {
        let list = &self.balances[idx];
        match find_key(list, w) {
            Some(i) => {
                proof {
                    lemma_lookup_at(list@, i as int);
                }
                list[i].1
            },
            None => {
                proof {
                    lemma_lookup_absent(list@, w);
                }
                0
            },
        }
    }

    fn set_holder(&mut self, idx: usize, w: u64, v: u64)
        requires
            idx < old(self).balances@.len(),
            unique_keys(old(self).balances@[idx as int]@),
        ensures
            final(self).balances@.len() == old(self).balances@.len(),
            forall|a: int|
                0 <= a < old(self).balances@.len() && a != idx ==> #[trigger] final(self).balances@[a]
                    == old(self).balances@[a],
            unique_keys(final(self).balances@[idx as int]@),
            forall|k: u64|
                #[trigger] lookup(final(self).balances@[idx as int]@, k) == if k == w {
                    v as nat
                } else {
                    lookup(old(self).balances@[idx as int]@, k)
                },
            total(final(self).balances@[idx as int]@) + lookup(old(self).balances@[idx as int]@, w)
                == total(old(self).balances@[idx as int]@) + v,
            final(self).allowances == old(self).allowances,
            final(self).next_asset_id == old(self).next_asset_id,
            final(self).supply == old(self).supply,
            final(self).symbols == old(self).symbols,
            final(self).tokens == old(self).tokens,
            final(self).htlcs == old(self).htlcs,
            final(self).events == old(self).events,
    {
        set_entry(&mut self.balances[idx], w, v);
    }

    /// Moves `amount` of an existing asset from `from` to `to`.
    fn do_transfer(&mut self, asset_id: AssetId, from: &AccountId, to: &AccountId, amount: Balance) -> (r:
        Result<(), HtlcError>)
        requires
            old(self).wf(),
            asset_id < old(self).next_id(),
        ensures
            final(self).wf(),
            r is Ok <==> old(self).balance_of_spec(asset_id, *from) >= amount,
            r is Ok ==> {
                &&& final(self).transferred(old(self), asset_id, *from, *to, amount)
                &&& final(self).same_registry(old(self))
                &&& final(self).same_allowances(old(self))
                &&& final(self).event_log() == old(self).event_log().push(
                    EventView::Transfer(asset_id, Some(*from), Some(*to), amount),
                )
            },
            r is Err ==> r == Err::<(), HtlcError>(HtlcError::NoEnoughBalance) && *final(self)
                == *old(self),
    {
        let idx = match index_below(asset_id, self.balances.len()) {
            Some(i) => i,
            None => {
                return Err(HtlcError::NoEnoughBalance);
            },
        };
        let from_balance = self.holder_balance(idx, *from);
        if from_balance < amount {
            return Err(HtlcError::NoEnoughBalance);
        }
        let ghost s0 = self.balances@[idx as int]@;
        proof {
            lemma_bounds(s0, *from, *to);
        }
        self.set_holder(idx, *from, from_balance - amount);
        let ghost s1 = self.balances@[idx as int]@;
        let to_balance = self.holder_balance(idx, *to);
        proof {
            if *from == *to {
                assert(to_balance == from_balance - amount);
            } else {
                assert(to_balance == lookup(s0, *to));
            }
        }
        self.set_holder(idx, *to, to_balance + amount);
        proof {
            let s2 = self.balances@[idx as int]@;
            assert(total(s2) == total(s0));
            assert forall|a: int| 0 <= a < self.balances@.len() implies {
                &&& unique_keys(#[trigger] self.balances@[a]@)
                &&& total(self.balances@[a]@) == self.supply@[a] as nat
            } by {
                if a != idx {
                    assert(self.balances@[a] == old(self).balances@[a]);
                }
            }
            assert forall|a: AssetId, w: AccountId| #[trigger]
                self.balance_of_spec(a, w) == if a == asset_id && *from != *to && w == *from {
                    (old(self).balance_of_spec(a, w) - amount) as nat
                } else if a == asset_id && *from != *to && w == *to {
                    (old(self).balance_of_spec(a, w) + amount) as nat
                } else {
                    old(self).balance_of_spec(a, w)
                } by {
                if a < self.balances@.len() && a != idx {
                    assert(self.balances@[a as int] == old(self).balances@[a as int]);
                }
            }
        }
        self.deposit_event(Event::Transfer(asset_id, Some(*from), Some(*to), amount));
        Ok(())
    }
}

/// The same HTLC record in another state.
pub open spec fn with_state(v: HtlcView, st: HtlcState) -> HtlcView {
    HtlcView { state: st, ..v }
}

impl Module {
    /// Sets the allowance of (asset, owner, spender) to `amount` and records the event.
    fn do_approve(&mut self, asset_id: AssetId, owner: &AccountId, spender: &AccountId, amount: Balance)
        requires
            old(self).wf(),
        ensures
            final(self).wf(),
            final(self).same_registry(old(self)),
            final(self).same_balances(old(self)),
            forall|a: AssetId, o: AccountId, s: AccountId| #[trigger]
                final(self).allowance_of(a, o, s) == if a == asset_id && o == *owner && s
                    == *spender {
                    amount as nat
                } else {
                    old(self).allowance_of(a, o, s)
                },
            final(self).event_log() == old(self).event_log().push(
                EventView::Approval(asset_id, *owner, *spender, amount),
            ),
    {
        let ghost es = self.allowance_entries();
        let key = (asset_id, *owner, *spender);
        match self.find_allowance(asset_id, *owner, *spender) {
            Some(i) => {
                proof {
                    lemma_set_at(es, i as int, amount);
                }
                self.allowances.set(
                    i,
                    Allowance { asset_id, owner: *owner, spender: *spender, amount },
                );
                proof {
                    assert(self.allowance_entries() =~= es.update(i as int, (key, amount)));
                }
            },
            None => {
                proof {
                    assert forall|j: int| 0 <= j < es.len() implies es[j].0 != key by {}
                    lemma_push_new(es, key, amount);
                }
                self.allowances.push(Allowance { asset_id, owner: *owner, spender: *spender, amount });
                proof {
                    assert(self.allowance_entries() =~= es.push((key, amount)));
                }
            },
        }
        self.deposit_event(Event::Approval(asset_id, *owner, *spender, amount));
    }

    /// Adds `amount` to the balance of `who` and to the supply.
    fn do_mint(&mut self, asset_id: AssetId, who: &AccountId, amount: Balance)
        requires
            old(self).wf(),
            asset_id < old(self).next_id(),
            old(self).supply_of(asset_id) + amount <= u64::MAX,
        ensures
            final(self).wf(),
            final(self).htlcs == old(self).htlcs,
            final(self).same_registry(old(self)),
            final(self).same_allowances(old(self)),
            forall|a: AssetId, w: AccountId| #[trigger]
                final(self).balance_of_spec(a, w) == if a == asset_id && w == *who {
                    (old(self).balance_of_spec(a, w) + amount) as nat
                } else {
                    old(self).balance_of_spec(a, w)
                },
            forall|a: AssetId| #[trigger]
                final(self).supply_of(a) == if a == asset_id {
                    (old(self).supply_of(a) + amount) as nat
                } else {
                    old(self).supply_of(a)
                },
            final(self).event_log() == old(self).event_log().push(
                EventView::Transfer(asset_id, None, Some(*who), amount),
            ),
    {
        let idx = match index_below(asset_id, self.balances.len()) {
            Some(i) => i,
            None => {
                return;
            },
        };
        let current_balance = self.holder_balance(idx, *who);
        let current_supply = self.supply[idx];
        proof {
            lemma_bounds(self.balances@[idx as int]@, *who, *who);
        }
        self.set_holder(idx, *who, current_balance + amount);
        self.supply.set(idx, current_supply + amount);
        proof {
            assert forall|a: int| 0 <= a < self.balances@.len() implies {
                &&& unique_keys(#[trigger] self.balances@[a]@)
                &&& total(self.balances@[a]@) == self.supply@[a] as nat
            } by {
                if a != idx {
                    assert(self.balances@[a] == old(self).balances@[a]);
                }
            }
            assert forall|a: AssetId, w: AccountId| #[trigger]
                self.balance_of_spec(a, w) == if a == asset_id && w == *who {
                    (old(self).balance_of_spec(a, w) + amount) as nat
                } else {
                    old(self).balance_of_spec(a, w)
                } by {
                if a < self.balances@.len() && a != idx {
                    assert(self.balances@[a as int] == old(self).balances@[a as int]);
                }
            }
        }
        self.deposit_event(Event::Transfer(asset_id, None, Some(*who), amount));
    }

    /// Removes `amount` from the balance of `who` and from the supply.
    fn do_burn(&mut self, asset_id: AssetId, who: &AccountId, amount: Balance) -> (r: Result<
        (),
        HtlcError,
    >)
        requires
            old(self).wf(),
            asset_id < old(self).next_id(),
        ensures
            final(self).wf(),
            r is Ok <==> old(self).balance_of_spec(asset_id, *who) >= amount,
            r is Ok ==> {
                &&& final(self).same_registry(old(self))
                &&& final(self).same_allowances(old(self))
                &&& forall|a: AssetId, w: AccountId| #[trigger]
                    final(self).balance_of_spec(a, w) == if a == asset_id && w == *who {
                        (old(self).balance_of_spec(a, w) - amount) as nat
                    } else {
                        old(self).balance_of_spec(a, w)
                    }
                &&& forall|a: AssetId| #[trigger]
                    final(self).supply_of(a) == if a == asset_id {
                        (old(self).supply_of(a) - amount) as nat
                    } else {
                        old(self).supply_of(a)
                    }
                &&& final(self).event_log() == old(self).event_log().push(
                    EventView::Transfer(asset_id, Some(*who), None, amount),
                )
            },
            r is Err ==> r == Err::<(), HtlcError>(HtlcError::BurnExceedsBalance) && *final(self)
                == *old(self),
    {
        let idx = match index_below(asset_id, self.balances.len()) {
            Some(i) => i,
            None => {
                return Err(HtlcError::BurnExceedsBalance);
            },
        };
        let current_balance = self.holder_balance(idx, *who);
        if current_balance < amount {
            return Err(HtlcError::BurnExceedsBalance);
        }
        let current_supply = self.supply[idx];
        proof {
            lemma_bounds(self.balances@[idx as int]@, *who, *who);
        }
        self.set_holder(idx, *who, current_balance - amount);
        self.supply.set(idx, current_supply - amount);
        proof {
            assert forall|a: int| 0 <= a < self.balances@.len() implies {
                &&& unique_keys(#[trigger] self.balances@[a]@)
                &&& total(self.balances@[a]@) == self.supply@[a] as nat
            } by {
                if a != idx {
                    assert(self.balances@[a] == old(self).balances@[a]);
                }
            }
            assert forall|a: AssetId, w: AccountId| #[trigger]
                self.balance_of_spec(a, w) == if a == asset_id && w == *who {
                    (old(self).balance_of_spec(a, w) - amount) as nat
                } else {
                    old(self).balance_of_spec(a, w)
                } by {
                if a < self.balances@.len() && a != idx {
                    assert(self.balances@[a as int] == old(self).balances@[a as int]);
                }
            }
        }
        self.deposit_event(Event::Transfer(asset_id, Some(*who), None, amount));
        Ok(())
    }
}

impl Module {
    fn do_create_token(&mut self, who: AccountId, symbol: Symbol) -> (r: Result<(), HtlcError>)
        requires
            old(self).wf(),
            old(self).next_id() < u64::MAX,
        ensures
            final(self).wf(),
            r is Ok <==> old(self).token(symbol@) is None,
            r is Ok ==> {
                &&& final(self).next_id() == old(self).next_id() + 1
                &&& final(self).token(symbol@) == Some((old(self).next_id(), who))
                &&& forall|s: Seq<u8>|
                    s != symbol@ ==> #[trigger] final(self).token(s) == old(self).token(s)
                &&& final(self).symbol_at(old(self).next_id()) == symbol@
                &&& forall|a: AssetId|
                    a != old(self).next_id() ==> #[trigger] final(self).symbol_at(a)
                        == old(self).symbol_at(a)
                &&& forall|h: Seq<u8>| #[trigger] final(self).htlc(h) == old(self).htlc(h)
                &&& final(self).same_balances(old(self))
                &&& final(self).same_allowances(old(self))
                &&& final(self).event_log() == old(self).event_log().push(
                    EventView::TokenCreated(symbol@, old(self).next_id()),
                )
            },
            r is Err ==> r == Err::<(), HtlcError>(HtlcError::TokenAlreadyExists) && *final(self)
                == *old(self),
    {
        if self.find_token(symbol.as_slice()).is_some() {
            return Err(HtlcError::TokenAlreadyExists);
        }
        let ghost es = self.token_entries();
        let ghost old_self = *self;
        let id = self.next_asset_id;
        self.next_asset_id = id + 1;
        let mut holders: Vec<(AccountId, Balance)> = Vec::new();
        holders.push((who, 0));
        proof {
            assert(holders@ =~= seq![(who, 0u64)]);
            lemma_single(who, 0);
        }
        self.balances.push(holders);
        self.supply.push(0);
        self.symbols.push(copy_bytes(&symbol));
        let sym_for_event = copy_bytes(&symbol);
        proof {
            assert forall|j: int| 0 <= j < es.len() implies es[j].0 != symbol@ by {}
            lemma_push_new(es, symbol@, (id, who));
        }
        self.tokens.push(TokenInfo { symbol, asset_id: id, owner: who });
        proof {
            assert(self.token_entries() =~= es.push((symbol@, (id, who))));
            assert forall|a: int| 0 <= a < self.balances@.len() implies {
                &&& unique_keys(#[trigger] self.balances@[a]@)
                &&& total(self.balances@[a]@) == self.supply@[a] as nat
            } by {
                if a < id {
                    assert(self.balances@[a] == old_self.balances@[a]);
                }
            }
            assert forall|a: AssetId, w: AccountId| #[trigger]
                self.balance_of_spec(a, w) == old_self.balance_of_spec(a, w) by {
                if a < id {
                    assert(self.balances@[a as int] == old_self.balances@[a as int]);
                }
                if a == id {
                    lemma_lookup_absent(Seq::<(u64, u64)>::empty(), w);
                }
            }
            assert forall|a: AssetId| #[trigger] self.symbol_at(a) == if a == id {
                symbol@
            } else {
                old_self.symbol_at(a)
            } by {
                if a < id {
                    assert(self.symbols@[a as int] == old_self.symbols@[a as int]);
                }
            }
        }
        self.deposit_event(Event::TokenCreated(sym_for_event, id));
        Ok(())
    }

    fn do_create_htlc(
        &mut self,
        owner: AccountId,
        symbol: Symbol,
        buyer: AccountId,
        amount: Balance,
        secret_hash: SecretHash,
        expiration_in_ms: Moment,
        now: Moment,
    ) -> (r: Result<(), HtlcError>)
        requires
            old(self).wf(),
        ensures
            final(self).wf(),
            r == Err::<(), HtlcError>(HtlcError::HtlcAlreadyExists) <==> old(self).htlc(
                secret_hash@,
            ) is Some,
            r == Err::<(), HtlcError>(HtlcError::TokenDoesNotExist) <==> (old(self).htlc(
                secret_hash@,
            ) is None && old(self).token(symbol@) is None),
            r == Err::<(), HtlcError>(HtlcError::NotOwner) <==> (old(self).htlc(
                secret_hash@,
            ) is None && old(self).token(symbol@) is Some && old(self).token(symbol@).unwrap().1
                != owner),
            r == Err::<(), HtlcError>(HtlcError::InvalidExpiration) <==> (old(self).htlc(
                secret_hash@,
            ) is None && old(self).token(symbol@) is Some && old(self).token(symbol@).unwrap().1
                == owner && expiration_in_ms <= now),
            r is Ok ==> {
                &&& old(self).token(symbol@) matches Some(t) && final(self).htlc(secret_hash@)
                    == Some(
                    HtlcView {
                        buyer,
                        symbol: symbol@,
                        asset_id: t.0,
                        amount,
                        expiration_in_ms,
                        secret_hash: secret_hash@,
                        state: HtlcState::Created,
                    },
                )
                &&& forall|h: Seq<u8>|
                    h != secret_hash@ ==> #[trigger] final(self).htlc(h) == old(self).htlc(h)
                &&& forall|s: Seq<u8>| #[trigger] final(self).token(s) == old(self).token(s)
                &&& forall|a: AssetId| #[trigger] final(self).symbol_at(a) == old(self).symbol_at(a)
                &&& final(self).next_id() == old(self).next_id()
                &&& final(self).same_balances(old(self))
                &&& final(self).same_allowances(old(self))
                &&& final(self).event_log() == old(self).event_log().push(
                    EventView::HtlcCreated(symbol@, amount, buyer, secret_hash@),
                )
            },
            r is Err ==> *final(self) == *old(self),
            r is Ok || r == Err::<(), HtlcError>(HtlcError::HtlcAlreadyExists) || r == Err::<
                (),
                HtlcError,
            >(HtlcError::TokenDoesNotExist) || r == Err::<(), HtlcError>(HtlcError::NotOwner)
                || r == Err::<(), HtlcError>(HtlcError::InvalidExpiration),
    {
        if self.find_htlc(&secret_hash).is_some() {
            return Err(HtlcError::HtlcAlreadyExists);
        }
        let ti = match self.find_token(symbol.as_slice()) {
            Some(i) => i,
            None => {
                return Err(HtlcError::TokenDoesNotExist);
            },
        };
        let asset_id = self.tokens[ti].asset_id;
        if !self.is_owner_of(&owner, symbol.as_slice()) {
            return Err(HtlcError::NotOwner);
        }
        if !(expiration_in_ms > now) {
            return Err(HtlcError::InvalidExpiration);
        }
        let ghost es = self.htlc_entries();
        let sym_for_event = copy_bytes(&symbol);
        let info = HtlcInfo {
            asset_id,
            amount,
            expiration_in_ms,
            secret_hash,
            symbol,
            buyer,
            state: HtlcState::Created,
        };
        proof {
            assert forall|j: int| 0 <= j < es.len() implies es[j].0 != secret_hash@ by {}
            lemma_push_new(es, secret_hash@, info@);
        }
        self.htlcs.push(info);
        proof {
            assert(self.htlc_entries() =~= es.push((secret_hash@, info@)));
        }
        self.deposit_event(Event::HtlcCreated(sym_for_event, amount, buyer, secret_hash));
        Ok(())
    }

    /// Replaces the state of the HTLC at position `i`.
    fn set_htlc_state(&mut self, i: usize, st: HtlcState)
        requires
            old(self).wf(),
            i < old(self).htlcs@.len(),
        ensures
            final(self).wf(),
            final(self).htlc(old(self).htlcs@[i as int].secret_hash@) == Some(
                with_state(old(self).htlcs@[i as int]@, st),
            ),
            forall|h: Seq<u8>|
                h != old(self).htlcs@[i as int].secret_hash@ ==> #[trigger] final(self).htlc(h)
                    == old(self).htlc(h),
            forall|s: Seq<u8>| #[trigger] final(self).token(s) == old(self).token(s),
            forall|a: AssetId| #[trigger] final(self).symbol_at(a) == old(self).symbol_at(a),
            final(self).next_id() == old(self).next_id(),
            final(self).same_balances(old(self)),
            final(self).same_allowances(old(self)),
            final(self).event_log() == old(self).event_log(),
    {
        let ghost es = self.htlc_entries();
        let cur = self.htlcs[i].copy();
        let updated = HtlcInfo { state: st, ..cur };
        proof {
            assert(updated@ == with_state(old(self).htlcs@[i as int]@, st));
            lemma_set_at(es, i as int, updated@);
        }
        self.htlcs.set(i, updated);
        proof {
            assert(self.htlc_entries() =~= es.update(i as int, (es[i as int].0, updated@)));
        }
    }

    /// Claims the HTLC bound to `secret_hash` at time `now`, minting its amount to the buyer.
    pub fn claim_hashed(&mut self, secret_hash: SecretHash, now: Moment) -> (r: Result<
        (),
        HtlcError,
    >)
        requires
            old(self).wf(),
            old(self).mint_fits(secret_hash@),
        ensures
            final(self).wf(),
            match old(self).htlc(secret_hash@) {
                None => r == Err::<(), HtlcError>(HtlcError::NoHtlcForHash),
                Some(v) => if now > v.expiration_in_ms {
                    r == Err::<(), HtlcError>(HtlcError::HtlcExpired)
                } else if v.state != HtlcState::Created {
                    r == Err::<(), HtlcError>(HtlcError::InvalidHtlcState)
                } else {
                    &&& r is Ok
                    &&& final(self).htlc(secret_hash@) == Some(with_state(v, HtlcState::Claimed))
                    &&& forall|a: AssetId, w: AccountId| #[trigger]
                        final(self).balance_of_spec(a, w) == if a == v.asset_id && w == v.buyer {
                            (old(self).balance_of_spec(a, w) + v.amount) as nat
                        } else {
                            old(self).balance_of_spec(a, w)
                        }
                    &&& forall|a: AssetId| #[trigger]
                        final(self).supply_of(a) == if a == v.asset_id {
                            (old(self).supply_of(a) + v.amount) as nat
                        } else {
                            old(self).supply_of(a)
                        }
                    &&& final(self).event_log() == old(self).event_log().push(
                        EventView::Transfer(v.asset_id, None, Some(v.buyer), v.amount),
                    ).push(EventView::HtlcClaimed(v.symbol, v.amount, v.buyer, secret_hash@))
                },
            },
            r is Ok ==> {
                &&& forall|h: Seq<u8>|
                    h != secret_hash@ ==> #[trigger] final(self).htlc(h) == old(self).htlc(h)
                &&& forall|s: Seq<u8>| #[trigger] final(self).token(s) == old(self).token(s)
                &&& forall|a: AssetId| #[trigger] final(self).symbol_at(a) == old(self).symbol_at(a)
                &&& final(self).next_id() == old(self).next_id()
                &&& final(self).same_allowances(old(self))
            },
            r is Err ==> *final(self) == *old(self),
    {
        let i = match self.find_htlc(&secret_hash) {
            Some(i) => i,
            None => {
                return Err(HtlcError::NoHtlcForHash);
            },
        };
        let htlc = self.htlcs[i].copy();
        if !(now <= htlc.expiration_in_ms) {
            return Err(HtlcError::HtlcExpired);
        }
        if htlc.state != HtlcState::Created {
            return Err(HtlcError::InvalidHtlcState);
        }
        self.do_mint(htlc.asset_id, &htlc.buyer, htlc.amount);
        self.set_htlc_state(i, HtlcState::Claimed);
        self.deposit_event(Event::HtlcClaimed(htlc.symbol, htlc.amount, htlc.buyer, secret_hash));
        Ok(())
    }

    /// Cancels the HTLC bound to `secret_hash` once it has expired at time `now`.
    fn do_cancel(&mut self, secret_hash: SecretHash, now: Moment) -> (r: Result<(), HtlcError>)
        requires
            old(self).wf(),
        ensures
            final(self).wf(),
            match old(self).htlc(secret_hash@) {
                None => r == Err::<(), HtlcError>(HtlcError::NoHtlcForHash),
                Some(v) => if !(now > v.expiration_in_ms) {
                    r == Err::<(), HtlcError>(HtlcError::HtlcNotExpired)
                } else if v.state != HtlcState::Created {
                    r == Err::<(), HtlcError>(HtlcError::InvalidHtlcState)
                } else {
                    &&& r is Ok
                    &&& final(self).htlc(secret_hash@) == Some(with_state(v, HtlcState::Canceled))
                    &&& final(self).event_log() == old(self).event_log().push(
                        EventView::HtlcCanceled(v.symbol, v.amount, v.buyer, secret_hash@),
                    )
                },
            },
            r is Ok ==> {
                &&& forall|h: Seq<u8>|
                    h != secret_hash@ ==> #[trigger] final(self).htlc(h) == old(self).htlc(h)
                &&& forall|s: Seq<u8>| #[trigger] final(self).token(s) == old(self).token(s)
                &&& forall|a: AssetId| #[trigger] final(self).symbol_at(a) == old(self).symbol_at(a)
                &&& final(self).next_id() == old(self).next_id()
                &&& final(self).same_balances(old(self))
                &&& final(self).same_allowances(old(self))
            },
            r is Err ==> *final(self) == *old(self),
    {
        let i = match self.find_htlc(&secret_hash) {
            Some(i) => i,
            None => {
                return Err(HtlcError::NoHtlcForHash);
            },
        };
        let htlc = self.htlcs[i].copy();
        if !(now > htlc.expiration_in_ms) {
            return Err(HtlcError::HtlcNotExpired);
        }
        if htlc.state != HtlcState::Created {
            return Err(HtlcError::InvalidHtlcState);
        }
        self.set_htlc_state(i, HtlcState::Canceled);
        self.deposit_event(Event::HtlcCanceled(htlc.symbol, htlc.amount, htlc.buyer, secret_hash));
        Ok(())
    }
}

// -------------------------------------------------------------------
// Outcomes of the dispatchable calls
// -------------------------------------------------------------------
/// Outcome of moving `amount` of `asset` from `from` to `to`.
pub open spec fn transfer_outcome(
    old: Module,
    new: Module,
    asset: AssetId,
    from: AccountId,
    to: AccountId,
    amount: Balance,
    r: Result<(), HtlcError>,
) -> bool {
    if old.balance_of_spec(asset, from) >= amount {
        &&& r is Ok
        &&& new.transferred(&old, asset, from, to, amount)
        &&& new.same_registry(&old)
        &&& new.same_allowances(&old)
        &&& new.event_log() == old.event_log().push(
            EventView::Transfer(asset, Some(from), Some(to), amount),
        )
    } else {
        r == Err::<(), HtlcError>(HtlcError::NoEnoughBalance) && new == old
    }
}

/// Outcome of setting the allowance of (asset, owner, spender) to `amount`.
pub open spec fn approve_outcome(
    old: Module,
    new: Module,
    asset: AssetId,
    owner: AccountId,
    spender: AccountId,
    amount: Balance,
) -> bool {
    &&& new.same_registry(&old)
    &&& new.same_balances(&old)
    &&& forall|a: AssetId, o: AccountId, s: AccountId| #[trigger]
        new.allowance_of(a, o, s) == if a == asset && o == owner && s == spender {
            amount as nat
        } else {
            old.allowance_of(a, o, s)
        }
    &&& new.event_log() == old.event_log().push(EventView::Approval(asset, owner, spender, amount))
}

/// Outcome of creating a token under `symbol` owned by `who`.
pub open spec fn create_token_outcome(
    old: Module,
    new: Module,
    who: AccountId,
    symbol: Seq<u8>,
    r: Result<(), HtlcError>,
) -> bool {
    if old.token(symbol) is None {
        &&& r is Ok
        &&& new.next_id() == old.next_id() + 1
        &&& new.token(symbol) == Some((old.next_id(), who))
        &&& forall|s: Seq<u8>| s != symbol ==> #[trigger] new.token(s) == old.token(s)
        &&& new.symbol_at(old.next_id()) == symbol
        &&& forall|a: AssetId| a != old.next_id() ==> #[trigger] new.symbol_at(a) == old.symbol_at(a)
        &&& forall|h: Seq<u8>| #[trigger] new.htlc(h) == old.htlc(h)
        &&& new.same_balances(&old)
        &&& new.same_allowances(&old)
        &&& new.event_log() == old.event_log().push(EventView::TokenCreated(symbol, old.next_id()))
    } else {
        r == Err::<(), HtlcError>(HtlcError::TokenAlreadyExists) && new == old
    }
}

/// Outcome of creating an HTLC at time `now`.
pub open spec fn create_htlc_outcome(
    old: Module,
    new: Module,
    owner: AccountId,
    symbol: Seq<u8>,
    buyer: AccountId,
    amount: Balance,
    secret_hash: Seq<u8>,
    expiration_in_ms: Moment,
    now: Moment,
    r: Result<(), HtlcError>,
) -> bool {
    if old.htlc(secret_hash) is Some {
        r == Err::<(), HtlcError>(HtlcError::HtlcAlreadyExists) && new == old
    } else if old.token(symbol) is None {
        r == Err::<(), HtlcError>(HtlcError::TokenDoesNotExist) && new == old
    } else if old.token(symbol).unwrap().1 != owner {
        r == Err::<(), HtlcError>(HtlcError::NotOwner) && new == old
    } else if expiration_in_ms <= now {
        r == Err::<(), HtlcError>(HtlcError::InvalidExpiration) && new == old
    } else {
        &&& r is Ok
        &&& new.htlc(secret_hash) == Some(
            HtlcView {
                buyer,
                symbol,
                asset_id: old.token(symbol).unwrap().0,
                amount,
                expiration_in_ms,
                secret_hash,
                state: HtlcState::Created,
            },
        )
        &&& forall|h: Seq<u8>| h != secret_hash ==> #[trigger] new.htlc(h) == old.htlc(h)
        &&& forall|s: Seq<u8>| #[trigger] new.token(s) == old.token(s)
        &&& forall|a: AssetId| #[trigger] new.symbol_at(a) == old.symbol_at(a)
        &&& new.next_id() == old.next_id()
        &&& new.same_balances(&old)
        &&& new.same_allowances(&old)
        &&& new.event_log() == old.event_log().push(
            EventView::HtlcCreated(symbol, amount, buyer, secret_hash),
        )
    }
}

/// Outcome of claiming the HTLC bound to `secret_hash` at time `now`.
pub open spec fn claim_outcome(
    old: Module,
    new: Module,
    secret_hash: Seq<u8>,
    now: Moment,
    r: Result<(), HtlcError>,
) -> bool {
    match old.htlc(secret_hash) {
        None => r == Err::<(), HtlcError>(HtlcError::NoHtlcForHash) && new == old,
        Some(v) => if now > v.expiration_in_ms {
            r == Err::<(), HtlcError>(HtlcError::HtlcExpired) && new == old
        } else if v.state != HtlcState::Created {
            r == Err::<(), HtlcError>(HtlcError::InvalidHtlcState) && new == old
        } else {
            &&& r is Ok
            &&& new.htlc(secret_hash) == Some(with_state(v, HtlcState::Claimed))
            &&& forall|h: Seq<u8>| h != secret_hash ==> #[trigger] new.htlc(h) == old.htlc(h)
            &&& forall|a: AssetId, w: AccountId| #[trigger]
                new.balance_of_spec(a, w) == if a == v.asset_id && w == v.buyer {
                    (old.balance_of_spec(a, w) + v.amount) as nat
                } else {
                    old.balance_of_spec(a, w)
                }
            &&& forall|a: AssetId| #[trigger]
                new.supply_of(a) == if a == v.asset_id {
                    (old.supply_of(a) + v.amount) as nat
                } else {
                    old.supply_of(a)
                }
            &&& forall|s: Seq<u8>| #[trigger] new.token(s) == old.token(s)
            &&& forall|a: AssetId| #[trigger] new.symbol_at(a) == old.symbol_at(a)
            &&& new.next_id() == old.next_id()
            &&& new.same_allowances(&old)
            &&& new.event_log() == old.event_log().push(
                EventView::Transfer(v.asset_id, None, Some(v.buyer), v.amount),
            ).push(EventView::HtlcClaimed(v.symbol, v.amount, v.buyer, secret_hash))
        },
    }
}

/// Outcome of cancelling the HTLC bound to `secret_hash` at time `now`.
pub open spec fn cancel_outcome(
    old: Module,
    new: Module,
    secret_hash: Seq<u8>,
    now: Moment,
    r: Result<(), HtlcError>,
) -> bool {
    match old.htlc(secret_hash) {
        None => r == Err::<(), HtlcError>(HtlcError::NoHtlcForHash) && new == old,
        Some(v) => if !(now > v.expiration_in_ms) {
            r == Err::<(), HtlcError>(HtlcError::HtlcNotExpired) && new == old
        } else if v.state != HtlcState::Created {
            r == Err::<(), HtlcError>(HtlcError::InvalidHtlcState) && new == old
        } else {
            &&& r is Ok
            &&& new.htlc(secret_hash) == Some(with_state(v, HtlcState::Canceled))
            &&& forall|h: Seq<u8>| h != secret_hash ==> #[trigger] new.htlc(h) == old.htlc(h)
            &&& forall|s: Seq<u8>| #[trigger] new.token(s) == old.token(s)
            &&& forall|a: AssetId| #[trigger] new.symbol_at(a) == old.symbol_at(a)
            &&& new.next_id() == old.next_id()
            &&& new.same_balances(&old)
            &&& new.same_allowances(&old)
            &&& new.event_log() == old.event_log().push(
                EventView::HtlcCanceled(v.symbol, v.amount, v.buyer, secret_hash),
            )
        },
    }
}

/// Outcome of burning `amount` of `asset` held by `who`.
pub open spec fn burn_outcome(
    old: Module,
    new: Module,
    asset: AssetId,
    who: AccountId,
    amount: Balance,
    r: Result<(), HtlcError>,
) -> bool {
    if old.balance_of_spec(asset, who) >= amount {
        &&& r is Ok
        &&& new.same_registry(&old)
        &&& new.same_allowances(&old)
        &&& forall|a: AssetId, w: AccountId| #[trigger]
            new.balance_of_spec(a, w) == if a == asset && w == who {
                (old.balance_of_spec(a, w) - amount) as nat
            } else {
                old.balance_of_spec(a, w)
            }
        &&& forall|a: AssetId| #[trigger]
            new.supply_of(a) == if a == asset {
                (old.supply_of(a) - amount) as nat
            } else {
                old.supply_of(a)
            }
        &&& new.event_log() == old.event_log().push(EventView::Transfer(asset, Some(who), None, amount))
    } else {
        r == Err::<(), HtlcError>(HtlcError::BurnExceedsBalance) && new == old
    }
}

/// The asset a symbol names, or the refusal for an unknown symbol.
pub open spec fn symbol_asset(m: Module, symbol: Seq<u8>) -> Result<AssetId, HtlcError> {
    match m.token(symbol) {
        Some(t) => Ok(t.0),
        None => Err(HtlcError::SymbolDoesNotExist),
    }
}

impl Module {
    /// Creates a token under `symbol`, owned by the signer.
    pub fn create_token(&mut self, origin: Origin, symbol: Symbol) -> (r: Result<(), HtlcError>)
        requires
            old(self).wf(),
            old(self).next_id() < u64::MAX,
        ensures
            final(self).wf(),
            match signer_of(origin) {
                None => r == Err::<(), HtlcError>(HtlcError::BadOrigin) && *final(self) == *old(self),
                Some(who) => create_token_outcome(*old(self), *final(self), who, symbol@, r),
            },
    {
        let who = match ensure_signed(origin) {
            Ok(w) => w,
            Err(e) => {
                return Err(e);
            },
        };
        self.do_create_token(who, symbol)
    }

    /// Creates an HTLC owned by the signer (who must own the token) at time `now`.
    pub fn create_htlc(
        &mut self,
        origin: Origin,
        symbol: Symbol,
        buyer: AccountId,
        amount: Balance,
        secret_hash: SecretHash,
        expiration_in_ms: Moment,
        now: Moment,
    ) -> (r: Result<(), HtlcError>)
        requires
            old(self).wf(),
        ensures
            final(self).wf(),
            match signer_of(origin) {
                None => r == Err::<(), HtlcError>(HtlcError::BadOrigin) && *final(self) == *old(self),
                Some(who) => create_htlc_outcome(
                    *old(self),
                    *final(self),
                    who,
                    symbol@,
                    buyer,
                    amount,
                    secret_hash@,
                    expiration_in_ms,
                    now,
                    r,
                ),
            },
    {
        let who = match ensure_signed(origin) {
            Ok(w) => w,
            Err(e) => {
                return Err(e);
            },
        };
        self.do_create_htlc(who, symbol, buyer, amount, secret_hash, expiration_in_ms, now)
    }

    /// Reveals `secret`, claiming the HTLC bound to its SHA-256 hash at time `now`.
    pub fn claim(&mut self, origin: Origin, secret: Secret, now: Moment) -> (r: Result<
        (),
        HtlcError,
    >)
        requires
            old(self).wf(),
            old(self).mints_fit(),
        ensures
            final(self).wf(),
            match signer_of(origin) {
                None => r == Err::<(), HtlcError>(HtlcError::BadOrigin) && *final(self) == *old(self),
                Some(_) => claim_outcome(*old(self), *final(self), sha2_256(secret@), now, r),
            },
    {
        match ensure_signed(origin) {
            Ok(_) => {},
            Err(e) => {
                return Err(e);
            },
        }
        let secret_hash = hash_of(secret.as_slice());
        proof {
            assert(old(self).mint_fits(secret_hash@));
        }
        self.claim_hashed(secret_hash, now)
    }

    /// Cancels the expired HTLC bound to `secret_hash` at time `now`.
    pub fn cancel(&mut self, origin: Origin, secret_hash: SecretHash, now: Moment) -> (r: Result<
        (),
        HtlcError,
    >)
        requires
            old(self).wf(),
        ensures
            final(self).wf(),
            match signer_of(origin) {
                None => r == Err::<(), HtlcError>(HtlcError::BadOrigin) && *final(self) == *old(self),
                Some(_) => cancel_outcome(*old(self), *final(self), secret_hash@, now, r),
            },
    {
        match ensure_signed(origin) {
            Ok(_) => {},
            Err(e) => {
                return Err(e);
            },
        }
        self.do_cancel(secret_hash, now)
    }

    /// Moves `amount` of the token named `symbol` from the signer to `to`.
    pub fn transfer(&mut self, origin: Origin, symbol: Symbol, to: AccountId, amount: Balance) -> (r:
        Result<(), HtlcError>)
        requires
            old(self).wf(),
        ensures
            final(self).wf(),
            match signer_of(origin) {
                None => r == Err::<(), HtlcError>(HtlcError::BadOrigin) && *final(self) == *old(self),
                Some(from) => match symbol_asset(*old(self), symbol@) {
                    Err(e) => r == Err::<(), HtlcError>(e) && *final(self) == *old(self),
                    Ok(asset) => transfer_outcome(*old(self), *final(self), asset, from, to, amount, r),
                },
            },
    {
        let from = match ensure_signed(origin) {
            Ok(w) => w,
            Err(e) => {
                return Err(e);
            },
        };
        let ti = match self.find_token(symbol.as_slice()) {
            Some(i) => i,
            None => {
                return Err(HtlcError::SymbolDoesNotExist);
            },
        };
        let asset_id = self.tokens[ti].asset_id;
        self.do_transfer(asset_id, &from, &to, amount)
    }

    /// Lets `spender` move up to `amount` of the signer's token named `symbol`.
    pub fn approve(&mut self, origin: Origin, symbol: Symbol, spender: AccountId, amount: Balance) -> (r:
        Result<(), HtlcError>)
        requires
            old(self).wf(),
        ensures
            final(self).wf(),
            match signer_of(origin) {
                None => r == Err::<(), HtlcError>(HtlcError::BadOrigin) && *final(self) == *old(self),
                Some(owner) => match symbol_asset(*old(self), symbol@) {
                    Err(e) => r == Err::<(), HtlcError>(e) && *final(self) == *old(self),
                    Ok(asset) => r is Ok && approve_outcome(
                        *old(self),
                        *final(self),
                        asset,
                        owner,
                        spender,
                        amount,
                    ),
                },
            },
    {
        let owner = match ensure_signed(origin) {
            Ok(w) => w,
            Err(e) => {
                return Err(e);
            },
        };
        let ti = match self.find_token(symbol.as_slice()) {
            Some(i) => i,
            None => {
                return Err(HtlcError::SymbolDoesNotExist);
            },
        };
        let asset_id = self.tokens[ti].asset_id;
        self.do_approve(asset_id, &owner, &spender, amount);
        Ok(())
    }

    /// The signer moves `amount` of `from`'s token named `symbol` to `to`,
    /// spending from the allowance `from` gave it.
    pub fn transfer_from(
        &mut self,
        origin: Origin,
        symbol: Symbol,
        from: AccountId,
        to: AccountId,
        amount: Balance,
    ) -> (r: Result<(), HtlcError>)
        requires
            old(self).wf(),
        ensures
            final(self).wf(),
            match signer_of(origin) {
                None => r == Err::<(), HtlcError>(HtlcError::BadOrigin) && *final(self) == *old(self),
                Some(spender) => match symbol_asset(*old(self), symbol@) {
                    Err(e) => r == Err::<(), HtlcError>(e) && *final(self) == *old(self),
                    Ok(asset) => if old(self).allowance_of(asset, from, spender) < amount {
                        r == Err::<(), HtlcError>(HtlcError::NoEnoughAllowance) && *final(self)
                            == *old(self)
                    } else if old(self).balance_of_spec(asset, from) < amount {
                        r == Err::<(), HtlcError>(HtlcError::NoEnoughBalance) && *final(self)
                            == *old(self)
                    } else {
                        &&& r is Ok
                        &&& final(self).transferred(old(self), asset, from, to, amount)
                        &&& final(self).same_registry(old(self))
                        &&& forall|a: AssetId, o: AccountId, s: AccountId| #[trigger]
                            final(self).allowance_of(a, o, s) == if a == asset && o == from && s
                                == spender {
                                (old(self).allowance_of(a, o, s) - amount) as nat
                            } else {
                                old(self).allowance_of(a, o, s)
                            }
                        &&& final(self).event_log() == old(self).event_log().push(
                            EventView::Transfer(asset, Some(from), Some(to), amount),
                        ).push(
                            EventView::Approval(
                                asset,
                                from,
                                spender,
                                (old(self).allowance_of(asset, from, spender) - amount) as u64,
                            ),
                        )
                    },
                },
            },
    {
        let spender = match ensure_signed(origin) {
            Ok(w) => w,
            Err(e) => {
                return Err(e);
            },
        };
        let ti = match self.find_token(symbol.as_slice()) {
            Some(i) => i,
            None => {
                return Err(HtlcError::SymbolDoesNotExist);
            },
        };
        let asset_id = self.tokens[ti].asset_id;
        let allowance = self.get_allowance(&asset_id, &from, &spender);
        if allowance < amount {
            return Err(HtlcError::NoEnoughAllowance);
        }
        match self.do_transfer(asset_id, &from, &to, amount) {
            Ok(()) => {},
            Err(e) => {
                return Err(e);
            },
        }
        self.do_approve(asset_id, &from, &spender, allowance - amount);
        Ok(())
    }

    /// Destroys `amount` of the signer's token named `symbol`.
    pub fn burn(&mut self, origin: Origin, symbol: Symbol, amount: Balance) -> (r: Result<
        (),
        HtlcError,
    >)
        requires
            old(self).wf(),
        ensures
            final(self).wf(),
            match signer_of(origin) {
                None => r == Err::<(), HtlcError>(HtlcError::BadOrigin) && *final(self) == *old(self),
                Some(who) => match symbol_asset(*old(self), symbol@) {
                    Err(e) => r == Err::<(), HtlcError>(e) && *final(self) == *old(self),
                    Ok(asset) => burn_outcome(*old(self), *final(self), asset, who, amount, r),
                },
            },
    {
        let who = match ensure_signed(origin) {
            Ok(w) => w,
            Err(e) => {
                return Err(e);
            },
        };
        let ti = match self.find_token(symbol.as_slice()) {
            Some(i) => i,
            None => {
                return Err(HtlcError::SymbolDoesNotExist);
            },
        };
        let asset_id = self.tokens[ti].asset_id;
        self.do_burn(asset_id, &who, amount)
    }
}

// -------------------------------------------------------------------
// Laws
// -------------------------------------------------------------------
/// The total supply of every asset is the sum of its holders' balances, and
/// each balance is the holder's entry; so no balance exceeds the supply.
pub proof fn lemma_supply_is_sum_of_balances(m: Module, a: AssetId, w: AccountId)
    requires
        m.wf(),
    ensures
        total(m.holders(a)) == m.supply_of(a),
        m.balance_of_spec(a, w) == lookup(m.holders(a), w),
        m.balance_of_spec(a, w) <= m.supply_of(a),
{
    if a < m.balances@.len() {
        assert(unique_keys(m.balances@[a as int]@));
        lemma_bounds(m.holders(a), w, w);
    } else {
        assert(m.holders(a) =~= Seq::<(u64, u64)>::empty());
        lemma_lookup_absent(Seq::<(u64, u64)>::empty(), w);
    }
}

/// A transfer, and a transfer_from, never change any total supply.
pub proof fn lemma_transfer_keeps_supply(
    old: Module,
    new: Module,
    asset: AssetId,
    from: AccountId,
    to: AccountId,
    amount: Balance,
    r: Result<(), HtlcError>,
    b: AssetId,
)
    requires
        transfer_outcome(old, new, asset, from, to, amount, r),
    ensures
        new.supply_of(b) == old.supply_of(b),
{
}

/// Moving `amount` from `x` to `y` and then back restores every balance.
pub proof fn lemma_transfer_round_trip(
    m0: Module,
    m1: Module,
    m2: Module,
    asset: AssetId,
    x: AccountId,
    y: AccountId,
    amount: Balance,
    a: AssetId,
    w: AccountId,
)
    requires
        transfer_outcome(m0, m1, asset, x, y, amount, Ok(())),
        transfer_outcome(m1, m2, asset, y, x, amount, Ok(())),
    ensures
        m2.balance_of_spec(a, w) == m0.balance_of_spec(a, w),
{
    assert(m1.balance_of_spec(a, w) == if a == asset && x != y && w == x {
        (m0.balance_of_spec(a, w) - amount) as nat
    } else if a == asset && x != y && w == y {
        (m0.balance_of_spec(a, w) + amount) as nat
    } else {
        m0.balance_of_spec(a, w)
    });
    assert(m2.balance_of_spec(a, w) == if a == asset && y != x && w == y {
        (m1.balance_of_spec(a, w) - amount) as nat
    } else if a == asset && y != x && w == x {
        (m1.balance_of_spec(a, w) + amount) as nat
    } else {
        m1.balance_of_spec(a, w)
    });
    if a == asset && x != y && w == x {
        assert(m0.balance_of_spec(asset, x) >= amount);
    }
}

/// Once an HTLC has been claimed, neither a second claim nor a cancel succeeds.
pub proof fn lemma_claim_is_final(
    m0: Module,
    m1: Module,
    m2: Module,
    h: Seq<u8>,
    now1: Moment,
    now2: Moment,
    r2: Result<(), HtlcError>,
    r3: Result<(), HtlcError>,
    m3: Module,
)
    requires
        claim_outcome(m0, m1, h, now1, Ok(())),
        claim_outcome(m1, m2, h, now2, r2),
        cancel_outcome(m1, m3, h, now2, r3),
    ensures
        r2 is Err,
        r3 is Err,
        m2 == m1,
        m3 == m1,
{
}

/// Once an HTLC has been cancelled, neither a claim nor a second cancel succeeds.
pub proof fn lemma_cancel_is_final(
    m0: Module,
    m1: Module,
    m2: Module,
    h: Seq<u8>,
    now1: Moment,
    now2: Moment,
    r2: Result<(), HtlcError>,
    r3: Result<(), HtlcError>,
    m3: Module,
)
    requires
        cancel_outcome(m0, m1, h, now1, Ok(())),
        claim_outcome(m1, m2, h, now2, r2),
        cancel_outcome(m1, m3, h, now2, r3),
    ensures
        r2 is Err,
        r3 is Err,
{
}

/// At any one time an open HTLC is either claimable or cancellable, never both.
pub proof fn lemma_claim_and_cancel_exclusive(
    m: Module,
    c1: Module,
    c2: Module,
    h: Seq<u8>,
    now: Moment,
    r1: Result<(), HtlcError>,
    r2: Result<(), HtlcError>,
)
    requires
        claim_outcome(m, c1, h, now, r1),
        cancel_outcome(m, c2, h, now, r2),
    ensures
        !(r1 is Ok && r2 is Ok),
{
}
} // verus!
