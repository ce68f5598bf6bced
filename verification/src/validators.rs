//! The runtime's validator-set module: accounts bind to authority keys, and
//! validators vote on adding, removing or replacing validators; each vote is
//! recorded and logged for the consensus engine.
//!
//! Accounts and authority keys are carried as `u64` handles.

use vstd::prelude::*;
use crate::assoc::{find_opt, distinct_keys, lemma_find_absent, lemma_find_at, lemma_set_at, lemma_push_new, lemma_remove_at};
use crate::htlc::Origin;

verus! {

/// Smallest validator set that votes may leave.
pub const MIN_VALIDATORS: usize = 4;

/// A log the module deposits for the consensus engine.
pub enum ConsensusLog {
    /// Schedule adding an authority by voting.
    VoteToAdd(u64),
    /// Schedule removing an authority by voting.
    VoteToRemove(u64),
    /// Voting completed on this set.
    VoteComplete(Vec<u64>),
    /// The authority set changed to this one.
    NotifyChangedSet(Vec<u64>),
    /// Validator `0` votes for this set.
    VoteChangeSet(u64, Vec<u64>),
}

/// Mathematical view of a log.
pub enum LogView {
    VoteToAdd(u64),
    VoteToRemove(u64),
    VoteComplete(Seq<u64>),
    NotifyChangedSet(Seq<u64>),
    VoteChangeSet(u64, Seq<u64>),
}

impl ConsensusLog {
    pub open spec fn view(&self) -> LogView {
        match self {
            ConsensusLog::VoteToAdd(a) => LogView::VoteToAdd(*a),
            ConsensusLog::VoteToRemove(a) => LogView::VoteToRemove(*a),
            ConsensusLog::VoteComplete(v) => LogView::VoteComplete(v@),
            ConsensusLog::NotifyChangedSet(v) => LogView::NotifyChangedSet(v@),
            ConsensusLog::VoteChangeSet(a, v) => LogView::VoteChangeSet(*a, v@),
        }
    }

    /// The authority a vote to add names.
    pub fn try_into_add(self) -> (r: Option<u64>)
        ensures
            r == match self@ {
                LogView::VoteToAdd(a) => Some(a),
                _ => None,
            },
    {
        match self {
            ConsensusLog::VoteToAdd(id) => Some(id),
            _ => None,
        }
    }

    /// The authority a vote to remove names.
    pub fn try_into_remove(self) -> (r: Option<u64>)
        ensures
            r == match self@ {
                LogView::VoteToRemove(a) => Some(a),
                _ => None,
            },
    {
        match self {
            ConsensusLog::VoteToRemove(id) => Some(id),
            _ => None,
        }
    }

    /// The authorities of a completed vote.
    pub fn try_into_complete(self) -> (r: Option<Vec<u64>>)
        ensures
            match self@ {
                LogView::VoteComplete(v) => r is Some && r.unwrap()@ == v,
                _ => r is None,
            },
    {
        match self {
            ConsensusLog::VoteComplete(ids) => Some(ids),
            _ => None,
        }
    }
}

/// An authority key's claim on an account.
pub struct AccountBinding {
    pub self_pub_key: u64,
    pub bound_account: u64,
}

/// A binding signed with the authority key.
pub struct SignedAccountBinding {
    pub data: AccountBinding,
    pub sig: Vec<u8>,
}

/// How a vote changes the validator set.
#[derive(Clone, Copy, Debug, PartialEq, Eq, Structural)]
pub enum VoteChange {
    Add,
    Remove,
    Replace,
}

/// Reasons a call is refused.
#[derive(Clone, Copy, Debug, PartialEq, Eq, Structural)]
pub enum ValidatorError {
    BadOrigin,
    NotBound,
    InvalidSignature,
    InvalidAccount,
    AlreadyBound,
    NotValidator,
    UnboundAccount,
    InvalidIds,
    AlreadyValidator,
    NotInValidatorSet,
    CannotReduce,
    NotEnoughValidators,
    NotAllMapped,
}

impl ValidatorError {
    /// The text of the message the runtime reports for this error.
    pub open spec fn message_text(&self) -> Seq<char> {
        match self {
            ValidatorError::BadOrigin => "bad origin: expected to be a signed origin"@,
            ValidatorError::NotBound => "Account not bound"@,
            ValidatorError::InvalidSignature => "Invalid signature on binder"@,
            ValidatorError::InvalidAccount => "Invalid account trying to use binder"@,
            ValidatorError::AlreadyBound => "Account or node already bound"@,
            ValidatorError::NotValidator => "Account not validator"@,
            ValidatorError::UnboundAccount => "One of the accounts does not have bound authority"@,
            ValidatorError::InvalidIds => "Invalid ids provided"@,
            ValidatorError::AlreadyValidator => "Account voted for already validator"@,
            ValidatorError::NotInValidatorSet => "Account voted against already not in validator set"@,
            ValidatorError::CannotReduce => "Cannot reduce validator set further"@,
            ValidatorError::NotEnoughValidators => "Not enough validators in new set"@,
            ValidatorError::NotAllMapped => "Internal error: not all validators mapped"@,
        }
    }

    /// The message the runtime reports for this error.
    pub fn as_str(&self) -> (r: &'static str)
        ensures
            r@ == self.message_text(),
    {
        match self {
            ValidatorError::BadOrigin => "bad origin: expected to be a signed origin",
            ValidatorError::NotBound => "Account not bound",
            ValidatorError::InvalidSignature => "Invalid signature on binder",
            ValidatorError::InvalidAccount => "Invalid account trying to use binder",
            ValidatorError::AlreadyBound => "Account or node already bound",
            ValidatorError::NotValidator => "Account not validator",
            ValidatorError::UnboundAccount => "One of the accounts does not have bound authority",
            ValidatorError::InvalidIds => "Invalid ids provided",
            ValidatorError::AlreadyValidator => "Account voted for already validator",
            ValidatorError::NotInValidatorSet => "Account voted against already not in validator set",
            ValidatorError::CannotReduce => "Cannot reduce validator set further",
            ValidatorError::NotEnoughValidators => "Not enough validators in new set",
            ValidatorError::NotAllMapped => "Internal error: not all validators mapped",
        }
    }
}

/// Keys strictly increase along a keyed list, as in an ordered map.
pub open spec fn increasing(s: Seq<(u64, u64)>) -> bool {
    forall|i: int, j: int| 0 <= i < j < s.len() ==> s[i].0 < s[j].0
}

/// The first entry (in key order) whose value is `v`, by its key.
pub open spec fn key_of(s: Seq<(u64, u64)>, v: u64) -> Option<u64>
    decreases s.len(),
{
    if s.len() == 0 {
        None
    } else if s[0].1 == v {
        Some(s[0].0)
    } else {
        key_of(s.drop_first(), v)
    }
}

/// The accounts of `auths` in the map, unmapped ones skipped.
pub open spec fn accounts_of(m: Seq<(u64, u64)>, auths: Seq<u64>) -> Seq<u64>
    decreases auths.len(),
{
    if auths.len() == 0 {
        Seq::empty()
    } else if key_of(m, auths.last()) is Some {
        accounts_of(m, auths.drop_last()).push(key_of(m, auths.last()).unwrap())
    } else {
        accounts_of(m, auths.drop_last())
    }
}

/// Whether every authority of `auths` has an account.
pub open spec fn all_mapped(m: Seq<(u64, u64)>, auths: Seq<u64>) -> bool {
    forall|i: int| 0 <= i < auths.len() ==> key_of(m, #[trigger] auths[i]) is Some
}

/// The account of each authority.
pub open spec fn accounts_in_order(m: Seq<(u64, u64)>, auths: Seq<u64>) -> Seq<u64> {
    auths.map_values(|a: u64| key_of(m, a).unwrap())
}

/// Whether every account of `accs` is bound.
pub open spec fn all_bound(m: Seq<(u64, u64)>, accs: Seq<u64>) -> bool {
    forall|i: int| 0 <= i < accs.len() ==> find_opt(m, #[trigger] accs[i]) is Some
}

/// The authority keys of bound accounts.
pub open spec fn keys_of(m: Seq<(u64, u64)>, accs: Seq<u64>) -> Seq<u64> {
    accs.map_values(|a: u64| find_opt(m, a).unwrap())
}

/// The validator set a vote proposes, or why it is refused.
pub open spec fn proposed_set(cur: Seq<u64>, new_ids: Seq<u64>, how: VoteChange) -> Result<
    Seq<u64>,
    ValidatorError,
> {
    match how {
        VoteChange::Add => if new_ids.len() > 1 {
            Err(ValidatorError::InvalidIds)
        } else if cur.contains(new_ids[0]) {
            Err(ValidatorError::AlreadyValidator)
        } else {
            Ok(cur.push(new_ids[0]))
        },
        VoteChange::Remove => if new_ids.len() > 1 {
            Err(ValidatorError::InvalidIds)
        } else if !cur.contains(new_ids[0]) {
            Err(ValidatorError::NotInValidatorSet)
        } else if cur.len() <= MIN_VALIDATORS {
            Err(ValidatorError::CannotReduce)
        } else {
            Ok(cur.remove(first_pos(cur, new_ids[0])))
        },
        VoteChange::Replace => if new_ids.len() < MIN_VALIDATORS {
            Err(ValidatorError::NotEnoughValidators)
        } else {
            Ok(new_ids)
        },
    }
}

/// The first index of `x` in `s`, or -1.
pub open spec fn first_pos(s: Seq<u64>, x: u64) -> int
    decreases s.len(),
{
    if s.len() == 0 {
        -1
    } else if s[0] == x {
        0
    } else if first_pos(s.drop_first(), x) < 0 {
        -1
    } else {
        first_pos(s.drop_first(), x) + 1
    }
}

proof fn lemma_first_pos(s: Seq<u64>, x: u64, i: int)
    requires
        0 <= i < s.len(),
        s[i] == x,
        forall|j: int| 0 <= j < i ==> s[j] != x,
    ensures
        first_pos(s, x) == i,
    decreases i,
{
    if i > 0 {
        lemma_first_pos(s.drop_first(), x, i - 1);
    }
}

/// The validator-set module's storage.
pub struct Module {
    authorities: Vec<u64>,
    /// Account to authority key, in account order.
    auth_map: Vec<(u64, u64)>,
    /// Voter account to the accounts of the set it voted for.
    votes: Vec<(u64, Vec<u64>)>,
    logs: Vec<ConsensusLog>,
    current_set_id: u64,
}

impl Module {
    pub closed spec fn authorities_view(&self) -> Seq<u64> {
        self.authorities@
    }

    pub closed spec fn bindings(&self) -> Seq<(u64, u64)> {
        self.auth_map@
    }

    /// The accounts `voter` last voted for.
    pub closed spec fn vote_of(&self, voter: u64) -> Option<Seq<u64>> {
        match find_opt(self.votes@, voter) {
            Some(v) => Some(v@),
            None => None,
        }
    }

    pub closed spec fn log_view(&self) -> Seq<LogView> {
        self.logs@.map_values(|l: ConsensusLog| l@)
    }

    pub closed spec fn set_id(&self) -> u64 {
        self.current_set_id
    }

    pub closed spec fn wf(&self) -> bool {
        &&& increasing(self.auth_map@)
        &&& distinct_keys(self.votes@)
    }

    /// The authority key bound to account `acc`.
    pub open spec fn bound(&self, acc: u64) -> Option<u64> {
        find_opt(self.bindings(), acc)
    }

    /// The authority key of `acc`, if `acc` is bound to a current authority.
    pub open spec fn authority_of(&self, acc: u64) -> Option<u64> {
        match self.bound(acc) {
            Some(a) => if self.authorities_view().contains(a) {
                Some(a)
            } else {
                None
            },
            None => None,
        }
    }

    /// Whether `acc` is bound, or `auth` is bound to some account.
    pub open spec fn either_present(&self, acc: u64, auth: u64) -> bool {
        self.bound(acc) is Some || key_of(self.bindings(), auth) is Some
    }

    /// The outcome of a vote by `who` on the accounts `new_ids`: the set
    /// it proposes, or the error.
    pub open spec fn vote_outcome(&self, who: u64, new_ids: Seq<u64>, how: VoteChange) -> Result<
        Seq<u64>,
        ValidatorError,
    > {
        if self.authority_of(who) is None {
            Err(ValidatorError::NotValidator)
        } else if !all_bound(self.bindings(), new_ids) {
            Err(ValidatorError::UnboundAccount)
        } else {
            match proposed_set(self.authorities_view(), keys_of(self.bindings(), new_ids), how) {
                Err(e) => Err(e),
                Ok(set) => if !all_mapped(self.bindings(), set) {
                    Err(ValidatorError::NotAllMapped)
                } else {
                    Ok(set)
                },
            }
        }
    }

    /// The vote of `who` for `ids` (as `how` says) is recorded over
    /// `before`: its ballot holds the accounts of the resulting set, in
    /// binding order, and the set is logged for the node to vote for.
    pub open spec fn vote_recorded(
        &self,
        before: &Module,
        who: u64,
        ids: Seq<u64>,
        how: VoteChange,
    ) -> bool {
        let set = before.vote_outcome(who, ids, how)->Ok_0;
        &&& self.vote_of(who) == Some(accounts_in_order(before.bindings(), set))
        &&& forall|v: u64| v != who ==> #[trigger] self.vote_of(v) == before.vote_of(v)
        &&& self.log_view() == before.log_view().push(
            LogView::VoteChangeSet(before.authority_of(who).unwrap(), set),
        )
    }

    /// Nothing but the votes and logs differ from `other`.
    pub open spec fn same_validators(&self, other: &Module) -> bool {
        &&& self.authorities_view() == other.authorities_view()
        &&& self.bindings() == other.bindings()
        &&& self.set_id() == other.set_id()
    }

    /// Unchanged.
    pub open spec fn unchanged(&self, other: &Module) -> bool {
        &&& self.same_validators(other)
        &&& forall|v: u64| #[trigger] self.vote_of(v) == other.vote_of(v)
        &&& self.log_view() == other.log_view()
    }

    /// Genesis storage: the given authorities and no bindings.
    pub fn new(authorities: Vec<u64>) -> (r: Module)
        ensures
            r.wf(),
            r.authorities_view() == authorities@,
            r.bindings().len() == 0,
            forall|v: u64| #[trigger] r.vote_of(v) is None,
            r.log_view().len() == 0,
            r.set_id() == 0,
    {
        let r = Module {
            authorities,
            auth_map: Vec::new(),
            votes: Vec::new(),
            logs: Vec::new(),
            current_set_id: 0,
        };
        proof {
            assert(r.log_view() =~= Seq::<LogView>::empty());
            assert forall|v: u64| #[trigger] r.vote_of(v) is None by {
                lemma_find_absent(r.votes@, v);
            }
        }
        r
    }

    /// The current authorities.
    pub fn badger_authorities(&self) -> (r: Vec<u64>)
        ensures
            r@ == self.authorities_view(),
    {
        let mut r: Vec<u64> = Vec::new();
        let mut i: usize = 0;
        while i < self.authorities.len()
            invariant
                0 <= i <= self.authorities@.len(),
                r@ == self.authorities@.take(i as int),
            decreases self.authorities@.len() - i,
        {
            r.push(self.authorities[i]);
            proof {
                assert(self.authorities@.take(i + 1) =~= self.authorities@.take(i as int).push(
                    self.authorities@[i as int],
                ));
            }
            i = i + 1;
        }
        assert(self.authorities@.take(i as int) =~= self.authorities@);
        r
    }

    /// The current set id.
    pub fn current_set_id(&self) -> (r: u64)
        ensures
            r == self.set_id(),
    {
        self.current_set_id
    }

    /// The number of deposited logs.
    pub fn logs_len(&self) -> (r: usize)
        ensures
            r == self.log_view().len(),
    {
        self.logs.len()
    }

    fn index_of_account(&self, acc: u64) -> (r: Option<usize>)
        requires
            self.wf(),
        ensures
            match r {
                Some(i) => i < self.auth_map@.len() && self.auth_map@[i as int].0 == acc
                    && self.bound(acc) == Some(self.auth_map@[i as int].1),
                None => self.bound(acc) is None && forall|j: int|
                    0 <= j < self.auth_map@.len() ==> self.auth_map@[j].0 != acc,
            },
    {
        proof {
            lemma_increasing_distinct(self.auth_map@);
        }
        let mut i: usize = 0;
        while i < self.auth_map.len()
            invariant
                distinct_keys(self.auth_map@),
                0 <= i <= self.auth_map@.len(),
                forall|j: int| 0 <= j < i ==> self.auth_map@[j].0 != acc,
            decreases self.auth_map@.len() - i,
        {
            if self.auth_map[i].0 == acc {
                proof {
                    lemma_find_at(self.auth_map@, i as int);
                }
                return Some(i);
            }
            i = i + 1;
        }
        proof {
            lemma_find_absent(self.auth_map@, acc);
        }
        None
    }

    /// The authority key bound to `acc`.
    pub fn account_to_authority(&self, acc: u64) -> (r: Option<u64>)
        requires
            self.wf(),
        ensures
            r == self.bound(acc),
    {
        match self.index_of_account(acc) {
            Some(i) => Some(self.auth_map[i].1),
            None => None,
        }
    }

    /// The authority key of `acc`, if it is a current authority.
    pub fn is_account_authority(&self, acc: u64) -> (r: Option<u64>)
        requires
            self.wf(),
        ensures
            r == self.authority_of(acc),
    {
        match self.account_to_authority(acc) {
            Some(a) => {
                if contains(&self.authorities, a) {
                    Some(a)
                } else {
                    None
                }
            },
            None => None,
        }
    }

    /// The account bound to authority key `auth`, the first in account order.
    fn authority_to_account(&self, auth: u64) -> (r: Option<u64>)
        ensures
            r == key_of(self.auth_map@, auth),
    {
        let mut i: usize = 0;
        assert(self.auth_map@.skip(0) =~= self.auth_map@);
        while i < self.auth_map.len()
            invariant
                0 <= i <= self.auth_map@.len(),
                key_of(self.auth_map@, auth) == key_of(self.auth_map@.skip(i as int), auth),
            decreases self.auth_map@.len() - i,
        {
            let ghost rest = self.auth_map@.skip(i as int);
            proof {
                assert(rest[0] == self.auth_map@[i as int]);
                assert(rest.drop_first() =~= self.auth_map@.skip(i + 1));
            }
            if self.auth_map[i].1 == auth {
                return Some(self.auth_map[i].0);
            }
            i = i + 1;
        }
        proof {
            assert(self.auth_map@.skip(i as int).len() == 0);
        }
        None
    }

    /// Whether `acc` is bound, or `auth` is bound to some account.
    pub fn check_either_present(&self, acc: u64, auth: u64) -> (r: bool)
        requires
            self.wf(),
        ensures
            r == self.either_present(acc, auth),
    {
        if self.account_to_authority(acc).is_some() {
            return true;
        }
        self.authority_to_account(auth).is_some()
    }

    /// Drops the binding of the signing account.
    pub fn remove_account_binding(&mut self, origin: Origin) -> (r: Result<(), ValidatorError>)
        requires
            old(self).wf(),
        ensures
            final(self).wf(),
            r == match origin {
                Origin::Signed(who) => if old(self).bound(who) is Some {
                    Ok(())
                } else {
                    Err(ValidatorError::NotBound)
                },
                _ => Err(ValidatorError::BadOrigin),
            },
            r is Err ==> final(self).unchanged(old(self)),
            r is Ok ==> {
                &&& final(self).authorities_view() == old(self).authorities_view()
                &&& final(self).set_id() == old(self).set_id()
                &&& final(self).log_view() == old(self).log_view()
                &&& forall|v: u64| #[trigger] final(self).vote_of(v) == old(self).vote_of(v)
                &&& forall|a: u64| #[trigger]
                    final(self).bound(a) == if origin matches Origin::Signed(who) && a == who {
                        None
                    } else {
                        old(self).bound(a)
                    }
            },
    {
        let who = match origin {
            Origin::Signed(w) => w,
            _ => {
                return Err(ValidatorError::BadOrigin);
            },
        };
        match self.index_of_account(who) {
            Some(i) => {
                let ghost before = self.auth_map@;
                proof {
                    lemma_increasing_distinct(before);
                }
                self.auth_map.remove(i);
                proof {
                    lemma_remove_at(before, i as int);
                    assert(self.auth_map@ == before.remove(i as int));
                    assert forall|a: int, b: int|
                        0 <= a < b < self.auth_map@.len() implies self.auth_map@[a].0
                        < self.auth_map@[b].0 by {
                        if a < i {
                            assert(self.auth_map@[a] == before[a]);
                        } else {
                            assert(self.auth_map@[a] == before[a + 1]);
                        }
                        if b < i {
                            assert(self.auth_map@[b] == before[b]);
                        } else {
                            assert(self.auth_map@[b] == before[b + 1]);
                        }
                    }
                }
                Ok(())
            },
            None => Err(ValidatorError::NotBound),
        }
    }

    /// Binds an account to an authority key; `signature_valid` says whether
    /// the binding's signature verifies under that key.
    pub fn submit_account_binding(
        &mut self,
        origin: Origin,
        binding: SignedAccountBinding,
        signature_valid: bool,
    ) -> (r: Result<(), ValidatorError>)
        requires
            old(self).wf(),
        ensures
            final(self).wf(),
            r == match origin {
                Origin::Signed(who) => if !signature_valid {
                    Err(ValidatorError::InvalidSignature)
                } else if who != binding.data.bound_account {
                    Err(ValidatorError::InvalidAccount)
                } else if old(self).either_present(who, binding.data.self_pub_key) {
                    Err(ValidatorError::AlreadyBound)
                } else {
                    Ok(())
                },
                _ => Err(ValidatorError::BadOrigin),
            },
            r is Err ==> final(self).unchanged(old(self)),
            r is Ok ==> {
                &&& final(self).authorities_view() == old(self).authorities_view()
                &&& final(self).set_id() == old(self).set_id()
                &&& final(self).log_view() == old(self).log_view()
                &&& forall|v: u64| #[trigger] final(self).vote_of(v) == old(self).vote_of(v)
                &&& forall|a: u64| #[trigger]
                    final(self).bound(a) == if a == binding.data.bound_account {
                        Some(binding.data.self_pub_key)
                    } else {
                        old(self).bound(a)
                    }
            },
    {
        let who = match origin {
            Origin::Signed(w) => w,
            _ => {
                return Err(ValidatorError::BadOrigin);
            },
        };
        if !signature_valid {
            return Err(ValidatorError::InvalidSignature);
        }
        if who != binding.data.bound_account {
            return Err(ValidatorError::InvalidAccount);
        }
        if self.check_either_present(who, binding.data.self_pub_key) {
            return Err(ValidatorError::AlreadyBound);
        }
        insert_sorted(&mut self.auth_map, who, binding.data.self_pub_key);
        Ok(())
    }

    /// Records a vote of `who` for the validator set that `how` makes of the
    /// current one with the authorities of the accounts `new_auth_ids`, and
    /// logs the proposed set.
    pub fn update_vote_set(&mut self, who: u64, new_auth_ids: Vec<u64>, how: VoteChange) -> (r:
        Result<(), ValidatorError>)
        requires
            old(self).wf(),
            how != VoteChange::Replace ==> new_auth_ids@.len() >= 1,
        ensures
            final(self).wf(),
            final(self).same_validators(old(self)),
            r == match old(self).vote_outcome(who, new_auth_ids@, how) {
                Ok(_) => Ok(()),
                Err(e) => Err(e),
            },
            r is Err ==> final(self).unchanged(old(self)),
            r is Ok ==> final(self).vote_recorded(old(self), who, new_auth_ids@, how),
    {
        let our_authid = match self.is_account_authority(who) {
            Some(a) => a,
            None => {
                return Err(ValidatorError::NotValidator);
            },
        };
        let mut new_auths: Vec<u64> = Vec::new();
        let mut i: usize = 0;
        while i < new_auth_ids.len()
            invariant
                self.wf(),
                *self == *old(self),
                old(self).authority_of(who) == Some(our_authid),
                0 <= i <= new_auth_ids@.len(),
                all_bound(self.bindings(), new_auth_ids@.take(i as int)),
                new_auths@ == keys_of(self.bindings(), new_auth_ids@.take(i as int)),
            decreases new_auth_ids@.len() - i,
        {
            match self.account_to_authority(new_auth_ids[i]) {
                Some(a) => {
                    new_auths.push(a);
                    proof {
                        let t = new_auth_ids@.take(i + 1);
                        assert(t =~= new_auth_ids@.take(i as int).push(new_auth_ids@[i as int]));
                        assert(keys_of(self.bindings(), t) =~= keys_of(
                            self.bindings(),
                            new_auth_ids@.take(i as int),
                        ).push(a));
                        assert forall|j: int| 0 <= j < t.len() implies find_opt(
                            self.bindings(),
                            #[trigger] t[j],
                        ) is Some by {
                            if j < i {
                                assert(t[j] == new_auth_ids@.take(i as int)[j]);
                            }
                        }
                    }
                },
                None => {
                    proof {
                        assert(new_auth_ids@[i as int] == new_auth_ids@[i as int]);
                        assert(!all_bound(self.bindings(), new_auth_ids@));
                    }
                    return Err(ValidatorError::UnboundAccount);
                },
            }
            i = i + 1;
        }
        proof {
            assert(new_auth_ids@.take(i as int) =~= new_auth_ids@);
        }
        let set = match apply_change(self.badger_authorities(), new_auths, how) {
            Ok(s) => s,
            Err(e) => {
                return Err(e);
            },
        };
        let mut cmap: Vec<u64> = Vec::new();
        let mut k: usize = 0;
        while k < set.len()
            invariant
                self.wf(),
                *self == *old(self),
                old(self).authority_of(who) == Some(our_authid),
                all_bound(old(self).bindings(), new_auth_ids@),
                proposed_set(
                    old(self).authorities_view(),
                    keys_of(old(self).bindings(), new_auth_ids@),
                    how,
                ) == Ok::<Seq<u64>, ValidatorError>(set@),
                0 <= k <= set@.len(),
                all_mapped(self.auth_map@, set@.take(k as int)),
                cmap@ == accounts_in_order(self.auth_map@, set@.take(k as int)),
            decreases set@.len() - k,
        {
            match self.authority_to_account(set[k]) {
                Some(acc) => {
                    cmap.push(acc);
                    proof {
                        let t = set@.take(k + 1);
                        assert(t =~= set@.take(k as int).push(set@[k as int]));
                        assert(accounts_in_order(self.auth_map@, t) =~= accounts_in_order(
                            self.auth_map@,
                            set@.take(k as int),
                        ).push(acc));
                        assert forall|j: int| 0 <= j < t.len() implies key_of(
                            self.auth_map@,
                            #[trigger] t[j],
                        ) is Some by {
                            if j < k {
                                assert(t[j] == set@.take(k as int)[j]);
                            }
                        }
                    }
                },
                None => {
                    proof {
                        assert(set@[k as int] == set@[k as int]);
                    }
                    return Err(ValidatorError::NotAllMapped);
                },
            }
            k = k + 1;
        }
        proof {
            assert(set@.take(k as int) =~= set@);
        }
        let ghost votes0 = self.votes@;
        upsert_vote(&mut self.votes, who, cmap);
        let ghost set_view = set@;
        self.logs.push(ConsensusLog::VoteChangeSet(our_authid, set));
        proof {
            assert(self.log_view() =~= old(self).log_view().push(
                LogView::VoteChangeSet(our_authid, set_view),
            ));
        }
        Ok(())
    }

    /// Votes to add the authority of account `new_auth_id`.
    pub fn vote_to_add(&mut self, origin: Origin, new_auth_id: u64) -> (r: Result<
        (),
        ValidatorError,
    >)
        requires
            old(self).wf(),
        ensures
            final(self).wf(),
            final(self).same_validators(old(self)),
            r == match origin {
                Origin::Signed(who) => match old(self).vote_outcome(
                    who,
                    seq![new_auth_id],
                    VoteChange::Add,
                ) {
                    Ok(_) => Ok(()),
                    Err(e) => Err(e),
                },
                _ => Err(ValidatorError::BadOrigin),
            },
            r is Err ==> final(self).unchanged(old(self)),
            r is Ok ==> (origin matches Origin::Signed(who) && final(self).vote_recorded(
                old(self),
                who,
                seq![new_auth_id],
                VoteChange::Add,
            )),
    {
        let who = match origin {
            Origin::Signed(w) => w,
            _ => {
                return Err(ValidatorError::BadOrigin);
            },
        };
        let ids = vec![new_auth_id];
        proof {
            assert(ids@ =~= seq![new_auth_id]);
        }
        self.update_vote_set(who, ids, VoteChange::Add)
    }

    /// Votes to remove the authority of account `new_auth_id`.
    pub fn vote_to_remove(&mut self, origin: Origin, new_auth_id: u64) -> (r: Result<
        (),
        ValidatorError,
    >)
        requires
            old(self).wf(),
        ensures
            final(self).wf(),
            final(self).same_validators(old(self)),
            r == match origin {
                Origin::Signed(who) => match old(self).vote_outcome(
                    who,
                    seq![new_auth_id],
                    VoteChange::Remove,
                ) {
                    Ok(_) => Ok(()),
                    Err(e) => Err(e),
                },
                _ => Err(ValidatorError::BadOrigin),
            },
            r is Err ==> final(self).unchanged(old(self)),
            r is Ok ==> (origin matches Origin::Signed(who) && final(self).vote_recorded(
                old(self),
                who,
                seq![new_auth_id],
                VoteChange::Remove,
            )),
    {
        let who = match origin {
            Origin::Signed(w) => w,
            _ => {
                return Err(ValidatorError::BadOrigin);
            },
        };
        let ids = vec![new_auth_id];
        proof {
            assert(ids@ =~= seq![new_auth_id]);
        }
        self.update_vote_set(who, ids, VoteChange::Remove)
    }

    /// Votes to replace the validator set by the authorities of the accounts
    /// `new_auth_ids`.
    pub fn vote_to_change(&mut self, origin: Origin, new_auth_ids: Vec<u64>) -> (r: Result<
        (),
        ValidatorError,
    >)
        requires
            old(self).wf(),
        ensures
            final(self).wf(),
            final(self).same_validators(old(self)),
            r == match origin {
                Origin::Signed(who) => match old(self).vote_outcome(
                    who,
                    new_auth_ids@,
                    VoteChange::Replace,
                ) {
                    Ok(_) => Ok(()),
                    Err(e) => Err(e),
                },
                _ => Err(ValidatorError::BadOrigin),
            },
            r is Err ==> final(self).unchanged(old(self)),
            r is Ok ==> (origin matches Origin::Signed(who) && final(self).vote_recorded(
                old(self),
                who,
                new_auth_ids@,
                VoteChange::Replace,
            )),
    {
        let who = match origin {
            Origin::Signed(w) => w,
            _ => {
                return Err(ValidatorError::BadOrigin);
            },
        };
        self.update_vote_set(who, new_auth_ids, VoteChange::Replace)
    }

    /// The accounts of a changed validator set announced at the end of a
    /// session, unmapped authorities skipped; `None` when no change was
    /// announced.
    pub fn on_session_ending(&self, changed: Option<Vec<u64>>) -> (r: Option<Vec<u64>>)
        ensures
            changed is None ==> r is None,
            changed is Some ==> r is Some && r.unwrap()@ == accounts_of(
                self.bindings(),
                changed.unwrap()@,
            ),
    {
        match changed {
            None => None,
            Some(valids) => {
                let mut ret: Vec<u64> = Vec::new();
                let mut i: usize = 0;
                while i < valids.len()
                    invariant
                        0 <= i <= valids@.len(),
                        ret@ == accounts_of(self.auth_map@, valids@.take(i as int)),
                    decreases valids@.len() - i,
                {
                    proof {
                        assert(valids@.take(i + 1).drop_last() =~= valids@.take(i as int));
                        assert(valids@.take(i + 1).last() == valids@[i as int]);
                    }
                    match self.authority_to_account(valids[i]) {
                        Some(acc) => ret.push(acc),
                        None => {},
                    }
                    i = i + 1;
                }
                proof {
                    assert(valids@.take(i as int) =~= valids@);
                }
                Some(ret)
            },
        }
    }

    /// Starts a new session with the queued validators, each given by its
    /// account and its session key: an account's bound authority key is used,
    /// else its session key. The change is logged and the set id advances.
    pub fn on_new_session(&mut self, queued_validators: &Vec<(u64, u64)>)
        requires
            old(self).wf(),
            old(self).set_id() < u64::MAX,
        ensures
            final(self).wf(),
            final(self).bindings() == old(self).bindings(),
            final(self).authorities_view() == queued_validators@.map_values(
                |e: (u64, u64)|
                    match find_opt(old(self).bindings(), e.0) {
                        Some(k) => k,
                        None => e.1,
                    },
            ),
            final(self).log_view() == old(self).log_view().push(
                LogView::NotifyChangedSet(final(self).authorities_view()),
            ),
            final(self).set_id() == old(self).set_id() + 1,
            forall|v: u64| #[trigger] final(self).vote_of(v) == old(self).vote_of(v),
    {
        let mut next: Vec<u64> = Vec::new();
        let mut next_log: Vec<u64> = Vec::new();
        let mut i: usize = 0;
        let ghost target = queued_validators@.map_values(
            |e: (u64, u64)|
                match find_opt(self.auth_map@, e.0) {
                    Some(k) => k,
                    None => e.1,
                },
        );
        while i < queued_validators.len()
            invariant
                self.wf(),
                0 <= i <= queued_validators@.len(),
                target == queued_validators@.map_values(
                    |e: (u64, u64)|
                        match find_opt(self.auth_map@, e.0) {
                            Some(k) => k,
                            None => e.1,
                        },
                ),
                next@ == target.take(i as int),
                next_log@ == target.take(i as int),
            decreases queued_validators@.len() - i,
        {
            let (acc, def) = queued_validators[i];
            let k = match self.account_to_authority(acc) {
                Some(k) => k,
                None => def,
            };
            next.push(k);
            next_log.push(k);
            proof {
                assert(target.take(i + 1) =~= target.take(i as int).push(target[i as int]));
            }
            i = i + 1;
        }
        proof {
            assert(target.take(i as int) =~= target);
        }
        self.authorities = next;
        self.logs.push(ConsensusLog::NotifyChangedSet(next_log));
        self.current_set_id = self.current_set_id + 1;
        proof {
            assert(self.log_view() =~= old(self).log_view().push(
                LogView::NotifyChangedSet(self.authorities@),
            ));
        }
    }
}

/// The proposed set, as `proposed_set` states it.
fn apply_change(cur: Vec<u64>, new_ids: Vec<u64>, how: VoteChange) -> (r: Result<
    Vec<u64>,
    ValidatorError,
>)
    requires
        how != VoteChange::Replace ==> new_ids@.len() >= 1,
    ensures
        match proposed_set(cur@, new_ids@, how) {
            Ok(s) => r is Ok && r->Ok_0@ == s,
            Err(e) => r == Err::<Vec<u64>, ValidatorError>(e),
        },
{
    let mut c = cur;
    match how {
        VoteChange::Add => {
            if new_ids.len() > 1 {
                return Err(ValidatorError::InvalidIds);
            }
            let new_auth = new_ids[0];
            if contains(&c, new_auth) {
                return Err(ValidatorError::AlreadyValidator);
            }
            c.push(new_auth);
            Ok(c)
        },
        VoteChange::Remove => {
            if new_ids.len() > 1 {
                return Err(ValidatorError::InvalidIds);
            }
            let new_auth = new_ids[0];
            let pos = match position(&c, new_auth) {
                Some(p) => p,
                None => {
                    return Err(ValidatorError::NotInValidatorSet);
                },
            };
            if c.len() <= MIN_VALIDATORS {
                return Err(ValidatorError::CannotReduce);
            }
            c.remove(pos);
            Ok(c)
        },
        VoteChange::Replace => {
            if new_ids.len() < MIN_VALIDATORS {
                return Err(ValidatorError::NotEnoughValidators);
            }
            Ok(new_ids)
        },
    }
}

/// Whether `x` is in `v`.
fn contains(v: &Vec<u64>, x: u64) -> (r: bool)
    ensures
        r == v@.contains(x),
{
    position(v, x).is_some()
}

/// The first index of `x` in `v`.
fn position(v: &Vec<u64>, x: u64) -> (r: Option<usize>)
    ensures
        match r {
            Some(i) => i < v@.len() && v@.contains(x) && i == first_pos(v@, x),
            None => !v@.contains(x),
        },
{
    let mut i: usize = 0;
    while i < v.len()
        invariant
            0 <= i <= v@.len(),
            forall|j: int| 0 <= j < i ==> v@[j] != x,
        decreases v@.len() - i,
    {
        if v[i] == x {
            proof {
                lemma_first_pos(v@, x, i as int);
            }
            return Some(i);
        }
        i = i + 1;
    }
    None
}

/// Increasing keys are distinct.
proof fn lemma_increasing_distinct(s: Seq<(u64, u64)>)
    requires
        increasing(s),
    ensures
        distinct_keys(s),
{
}

/// Stores `v` under `k` in a list kept in key order, replacing an earlier
/// entry.
pub(crate) fn upsert_sorted(m: &mut Vec<(u64, u64)>, k: u64, v: u64)
    requires
        increasing(old(m)@),
    ensures
        increasing(final(m)@),
        forall|x: u64| #[trigger]
            find_opt(final(m)@, x) == if x == k {
                Some(v)
            } else {
                find_opt(old(m)@, x)
            },
{
    let ghost s = m@;
    assert(distinct_keys(s)) by {
        assert forall|a: int, b: int| 0 <= a < b < s.len() implies s[a].0 != s[b].0 by {
            assert(s[a].0 < s[b].0);
        }
    }
    let mut i: usize = 0;
    while i < m.len()
        invariant
            m@ == s,
            s == old(m)@,
            increasing(s),
            distinct_keys(s),
            0 <= i <= s.len(),
            forall|j: int| 0 <= j < i ==> s[j].0 != k,
        decreases s.len() - i,
    {
        if m[i].0 == k {
            m.set(i, (k, v));
            proof {
                assert(m@ =~= s.update(i as int, (s[i as int].0, v)));
                lemma_set_at(s, i as int, v);
                assert forall|a: int, b: int| 0 <= a < b < m@.len() implies m@[a].0 < m@[b].0 by {
                    assert(s[a].0 < s[b].0);
                }
                assert forall|x: u64| #[trigger] find_opt(m@, x) == if x == k {
                    Some(v)
                } else {
                    find_opt(s, x)
                } by {
                    assert(find_opt(s.update(i as int, (s[i as int].0, v)), x) == find_opt(m@, x));
                }
            }
            return;
        }
        i = i + 1;
    }
    proof {
        lemma_find_absent(s, k);
    }
    insert_sorted(m, k, v);
}

/// Inserts a new key where the key order puts it.
pub(crate) fn insert_sorted(m: &mut Vec<(u64, u64)>, k: u64, v: u64)
    requires
        increasing(old(m)@),
        find_opt(old(m)@, k) is None,
    ensures
        increasing(final(m)@),
        forall|x: u64| #[trigger]
            find_opt(final(m)@, x) == if x == k {
                Some(v)
            } else {
                find_opt(old(m)@, x)
            },
{
    let ghost s = m@;
    let mut j: usize = 0;
    while j < m.len() && m[j].0 < k
        invariant
            m@ == s,
            0 <= j <= s.len(),
            forall|a: int| 0 <= a < j ==> s[a].0 < k,
        decreases s.len() - j,
    {
        j = j + 1;
    }
    m.insert(j, (k, v));
    proof {
        lemma_increasing_distinct(s);
        let t = m@;
        assert(t =~= s.insert(j as int, (k, v)));
        if j < s.len() {
            if s[j as int].0 == k {
                lemma_find_at(s, j as int);
            }
        }
        assert forall|a: int, b: int| 0 <= a < b < t.len() implies t[a].0 < t[b].0 by {
            if b < j {
                assert(t[a] == s[a] && t[b] == s[b]);
            } else if b == j {
                assert(t[a] == s[a]);
            } else if a < j {
                assert(t[a] == s[a] && t[b] == s[b - 1]);
                assert(s[j as int].0 > k);
            } else if a == j {
                assert(t[b] == s[b - 1]);
                assert(s[j as int].0 > k);
            } else {
                assert(t[a] == s[a - 1] && t[b] == s[b - 1]);
            }
        }
        lemma_increasing_distinct(t);
        assert forall|x: u64| #[trigger]
            find_opt(t, x) == if x == k {
                Some(v)
            } else {
                find_opt(s, x)
            } by {
            if x == k {
                lemma_find_at(t, j as int);
            } else {
                if exists|a: int| 0 <= a < s.len() && s[a].0 == x {
                    let a = choose|a: int| 0 <= a < s.len() && s[a].0 == x;
                    lemma_find_at(s, a);
                    if a < j {
                        assert(t[a] == s[a]);
                        lemma_find_at(t, a);
                    } else {
                        assert(t[a + 1] == s[a]);
                        lemma_find_at(t, a + 1);
                    }
                } else {
                    lemma_find_absent(s, x);
                    assert forall|b: int| 0 <= b < t.len() implies t[b].0 != x by {
                        if b < j {
                            assert(t[b] == s[b]);
                        } else if b > j {
                            assert(t[b] == s[b - 1]);
                        }
                    }
                    lemma_find_absent(t, x);
                }
            }
        }
    }
}

/// Records `who`'s vote, replacing an earlier one.
fn upsert_vote(votes: &mut Vec<(u64, Vec<u64>)>, who: u64, accounts: Vec<u64>)
    requires
        distinct_keys(old(votes)@),
    ensures
        distinct_keys(final(votes)@),
        forall|x: u64| #[trigger]
            find_opt(final(votes)@, x) == if x == who {
                Some(accounts)
            } else {
                find_opt(old(votes)@, x)
            },
{
    let ghost s = votes@;
    let mut i: usize = 0;
    while i < votes.len()
        invariant
            votes@ == s,
            s == old(votes)@,
            distinct_keys(s),
            0 <= i <= s.len(),
            forall|j: int| 0 <= j < i ==> s[j].0 != who,
        decreases s.len() - i,
    {
        if votes[i].0 == who {
            let ghost acc = accounts;
            votes.set(i, (who, accounts));
            proof {
                assert(votes@ =~= s.update(i as int, (s[i as int].0, acc)));
                lemma_set_at(s, i as int, acc);
                assert forall|x: u64| #[trigger]
                    find_opt(votes@, x) == if x == who {
                        Some(acc)
                    } else {
                        find_opt(s, x)
                    } by {
                    assert(find_opt(s.update(i as int, (s[i as int].0, acc)), x) == if x
                        == s[i as int].0 {
                        Some(acc)
                    } else {
                        find_opt(s, x)
                    });
                }
            }
            return;
        }
        i = i + 1;
    }
    votes.push((who, accounts));
    proof {
        lemma_push_new(s, who, accounts);
    }
}

} // verus!

verus! {

/// Binding `acc` to `key` changes only `acc`'s binding.
pub open spec fn binding_added(m0: Module, m1: Module, acc: u64, key: u64) -> bool {
    forall|a: u64| #[trigger] m1.bound(a) == if a == acc {
        Some(key)
    } else {
        m0.bound(a)
    }
}

/// Unbinding `acc` changes only `acc`'s binding.
pub open spec fn binding_removed(m0: Module, m1: Module, acc: u64) -> bool {
    forall|a: u64| #[trigger] m1.bound(a) == if a == acc {
        None
    } else {
        m0.bound(a)
    }
}

/// Removing the binding that was just added restores every binding.
pub proof fn lemma_bind_unbind_round_trip(
    m0: Module,
    m1: Module,
    m2: Module,
    acc: u64,
    key: u64,
    a: u64,
)
    requires
        m0.bound(acc) is None,
        binding_added(m0, m1, acc, key),
        binding_removed(m1, m2, acc),
    ensures
        m2.bound(a) == m0.bound(a),
{
    assert(m1.bound(a) == if a == acc {
        Some(key)
    } else {
        m0.bound(a)
    });
    assert(m2.bound(a) == if a == acc {
        None
    } else {
        m1.bound(a)
    });
}

/// A vote to remove never proposes fewer than `MIN_VALIDATORS` validators:
/// the proposal is the current set less one.
pub proof fn lemma_remove_keeps_minimum(cur: Seq<u64>, new_ids: Seq<u64>)
    requires
        new_ids.len() >= 1,
        proposed_set(cur, new_ids, VoteChange::Remove) is Ok,
    ensures
        proposed_set(cur, new_ids, VoteChange::Remove)->Ok_0.len() == cur.len() - 1,
        proposed_set(cur, new_ids, VoteChange::Remove)->Ok_0.len() >= MIN_VALIDATORS,
        !proposed_set(cur, new_ids, VoteChange::Remove)->Ok_0.contains(new_ids[0]) || exists|
            i: int,
            j: int,
        | 0 <= i < j < cur.len() && cur[i] == new_ids[0] && cur[j] == new_ids[0],
{
    let x = new_ids[0];
    let p = first_pos(cur, x);
    lemma_first_pos_found(cur, x);
    let r = cur.remove(p);
    if r.contains(x) {
        let k = choose|k: int| 0 <= k < r.len() && r[k] == x;
        if k < p {
            assert(r[k] == cur[k]);
            lemma_first_pos_first(cur, x, k);
        } else {
            assert(r[k] == cur[k + 1]);
            assert(cur[p] == x);
        }
    }
}

/// A vote to replace never proposes fewer than `MIN_VALIDATORS` validators.
pub proof fn lemma_replace_keeps_minimum(cur: Seq<u64>, new_ids: Seq<u64>)
    requires
        proposed_set(cur, new_ids, VoteChange::Replace) is Ok,
    ensures
        proposed_set(cur, new_ids, VoteChange::Replace)->Ok_0 == new_ids,
        new_ids.len() >= MIN_VALIDATORS,
{
}

/// A vote to add proposes the current set with one validator more, which
/// was not in it.
pub proof fn lemma_add_grows_by_one(cur: Seq<u64>, new_ids: Seq<u64>)
    requires
        new_ids.len() >= 1,
        proposed_set(cur, new_ids, VoteChange::Add) is Ok,
    ensures
        proposed_set(cur, new_ids, VoteChange::Add)->Ok_0 == cur.push(new_ids[0]),
        !cur.contains(new_ids[0]),
{
}

proof fn lemma_first_pos_found(s: Seq<u64>, x: u64)
    requires
        s.contains(x),
    ensures
        0 <= first_pos(s, x) < s.len(),
        s[first_pos(s, x)] == x,
    decreases s.len(),
{
    if s[0] != x {
        let k = choose|k: int| 0 <= k < s.len() && s[k] == x;
        assert(s.drop_first()[k - 1] == x);
        lemma_first_pos_found(s.drop_first(), x);
    }
}

proof fn lemma_first_pos_first(s: Seq<u64>, x: u64, k: int)
    requires
        0 <= k < s.len(),
        s[k] == x,
    ensures
        first_pos(s, x) <= k,
        first_pos(s, x) >= 0,
    decreases k,
{
    if k > 0 && s[0] != x {
        lemma_first_pos_first(s.drop_first(), x, k - 1);
    }
}

} // verus!
