//! Decisions of the Honey Badger consensus state machine on gossip: session
//! announcements, sync reports, key-generation and consensus traffic, and the
//! collection of block justifications.
//!
//! Authority keys, network peers and block hashes are carried as `u64`
//! handles. What only cryptography or the block store can tell (whether a
//! signature verifies, whether a payload decodes, which header is known) is
//! handed in with each message.

use vstd::prelude::*;
use crate::assoc::{find_opt, distinct_keys, lemma_find_absent, lemma_find_at, lemma_set_at, lemma_push_new, lemma_remove_at};
use crate::peers::{Peers, PeerInfo, PeerConsensusState};
use crate::validators::{increasing, upsert_sorted};
use crate::keygen::{ack_source, sync_key_gen_new, KeyGenState, SyncKeyGenMessage};

verus! {

/// Delayed justifications are dropped once this many blocks completed.
pub const MAX_DELAYED_JUSTIFICATIONS: u64 = 10;

/// Transactions queued before consensus runs.
pub const MAX_QUEUE_LEN: usize = 1024;

/// Rounds a replay of the waiting messages runs at most.
pub const MAX_REPLAY_ROUNDS: u64 = 101;

/// `hbbft::util::max_faulty`: the number of faulty nodes tolerated among
/// `n`, `(n - 1) / 3`; it panics on an empty network.
pub assume_specification[hbbft::util::max_faulty](n: usize) -> (r: usize)
    requires
        n > 0,
    ensures
        r == (n - 1) / 3,
;

/// Signatures needed among `n` authorities: all but the tolerated faulty.
pub open spec fn quorum(n: nat) -> int {
    n - (n - 1) / 3
}

/// The outcome of validating a gossip message.
#[derive(Clone, Copy, Debug, PartialEq, Eq, Structural)]
pub enum ValidationResult {
    /// Keep in cache, periodically rebroadcasting.
    Maintain(u64),
    /// Discard the message as done.
    Discard,
    /// Discard the message and report the sending peer.
    Punish(i32),
}

/// The stage of the consensus node.
#[derive(Clone, Copy, Debug, PartialEq, Eq, Structural)]
pub enum BadgerState {
    /// Waiting for all initial validators to be connected.
    AwaitingValidators,
    /// Block numbers are being aligned before batch processing.
    InitialSync,
    /// Running the genesis key generation.
    KeyGen,
    /// Running consensus.
    Badger,
    /// Waiting for a join plan to become an observer.
    AwaitingJoinPlan,
}

/// What the node does next with a message it accepted.
#[derive(Clone, Copy, Debug, PartialEq, Eq, Structural)]
pub enum FollowUp {
    Nothing,
    /// All validators are known or in sync: start key generation.
    ProceedToKeygen,
    /// Feed the key-generation payload, sent by this peer, to key generation.
    ProcessKeygen(u64),
    /// Hand the consensus payload, sent by this peer, to consensus.
    HandleBadger(u64),
    /// Finalize the queued block with this hash.
    PreFinalize(u64),
    /// A justification was collected for this hash: check for completion.
    CheckJustification(u64),
}

/// The verdict on a message: its validation result, whether it should be
/// propagated again, and the follow-up.
#[derive(Clone, Copy, Debug, PartialEq, Eq, Structural)]
pub struct Decision {
    pub result: ValidationResult,
    pub repropagate: bool,
    pub next: FollowUp,
}

/// The validation result the gossip layer gets for a message and the
/// replay it set off, from each decision's result and whether the decision
/// came with its message: the last kept message decides, else the message
/// is discarded.
pub open spec fn gossip_verdict_spec(actions: Seq<(ValidationResult, bool)>) -> ValidationResult
    decreases actions.len(),
{
    if actions.len() == 0 {
        ValidationResult::Discard
    } else if actions.last().0 is Maintain && actions.last().1 {
        actions.last().0
    } else {
        gossip_verdict_spec(actions.drop_last())
    }
}

/// Folds the decisions on a message and its replay into one validation
/// result, as [`gossip_verdict_spec`] says.
pub fn gossip_verdict(actions: &Vec<(ValidationResult, bool)>) -> (r: ValidationResult)
    ensures
        r == gossip_verdict_spec(actions@),
{
    let mut r = ValidationResult::Discard;
    let mut i: usize = 0;
    while i < actions.len()
        invariant
            0 <= i <= actions@.len(),
            r == gossip_verdict_spec(actions@.take(i as int)),
        decreases actions@.len() - i,
    {
        proof {
            assert(actions@.take(i + 1).drop_last() =~= actions@.take(i as int));
        }
        let (res, kept) = actions[i];
        if kept {
            if let ValidationResult::Maintain(_) = res {
                r = res;
            }
        }
        i = i + 1;
    }
    proof {
        assert(actions@.take(i as int) =~= actions@);
    }
    r
}

/// One authority's signature on a block hash.
pub struct BadgerJustification {
    pub hash: u64,
    pub validator: u64,
    pub sgn: Vec<u8>,
}

/// A commit inside a full justification.
pub struct BadgerAuthCommit {
    pub validator: u64,
    pub sgn: Vec<u8>,
}

/// The commits that finalize a block.
pub struct BadgerFullJustification {
    pub hash: u64,
    pub commits: Vec<BadgerAuthCommit>,
}

/// A block number with its full justification.
pub struct BadgerSyncData {
    pub num: u64,
    pub justification: BadgerFullJustification,
}

/// A sync report signed by an authority.
pub struct BadgerSyncGossip {
    pub data: BadgerSyncData,
    pub source: u64,
    pub sgn: Vec<u8>,
}

/// The justifications collected for one block.
pub struct JustificationCollector {
    /// The authorities of the block.
    pub contemp_auth: Option<Vec<u64>>,
    pub justification: Vec<BadgerJustification>,
}

/// The best block an authority reported.
#[derive(Clone, Copy, Debug)]
pub struct ValidatorSync {
    pub best_block_num: u64,
    pub best_block_hash: u64,
    pub id: u64,
}

/// A gossip message, with what cryptography and the block store tell of it.
pub enum GossipMessage {
    /// Peer `peer_id` announces the session key it signs with in set `ses_id`.
    Session { ses_id: u64, session_key: u64, peer_id: u64 },
    /// A sync report; `signature_valid` covers the report and its
    /// justification, `justification_valid` the justification alone, and
    /// `our_best` is our best block number.
    SyncGossip { sync: BadgerSyncGossip, signature_valid: bool, justification_valid: bool, our_best: u64 },
    /// Key-generation data from authority `originator`; `decoded` says
    /// whether the payload decoded.
    KeygenData { originator: u64, decoded: bool },
    /// Consensus data from authority `originator`.
    BadgerData { originator: u64, decoded: bool },
    /// A justification; `header_number` is the number of the block it names
    /// if that block is known, and `finalized_number` our finalized number.
    JustificationData {
        just: BadgerJustification,
        signature_valid: bool,
        header_number: Option<u64>,
        finalized_number: u64,
    },
}

/// The authority keys of (node, authority key) pairs, in their order.
pub open spec fn authority_keys(pairs: Seq<(u64, u64)>) -> Seq<u64>
    decreases pairs.len(),
{
    if pairs.len() == 0 {
        Seq::empty()
    } else {
        authority_keys(pairs.drop_last()).push(pairs.last().1)
    }
}

/// Whether some justification in `js` is by `v`.
pub open spec fn signed_by(js: Seq<BadgerJustification>, v: u64) -> bool {
    exists|i: int| 0 <= i < js.len() && js[i].validator == v
}

/// The justifications after `n` is offered to a collector: it is added if
/// the block's authorities are known and include its validator, and that
/// validator has not signed yet.
pub open spec fn justifications_after(c: JustificationCollector, n: BadgerJustification) -> Seq<
    BadgerJustification,
> {
    if c.contemp_auth is Some && !signed_by(c.justification@, n.validator)
        && c.contemp_auth.unwrap()@.contains(n.validator) {
        c.justification@.push(n)
    } else {
        c.justification@
    }
}

/// The justifications a collector for authorities `auth` holds after
/// `offered` are offered in turn to one holding `js`.
pub open spec fn admit_all(auth: Seq<u64>, js: Seq<BadgerJustification>, offered: Seq<BadgerJustification>) -> Seq<
    BadgerJustification,
>
    decreases offered.len(),
{
    if offered.len() == 0 {
        js
    } else {
        let prev = admit_all(auth, js, offered.drop_last());
        let n = offered.last();
        if !signed_by(prev, n.validator) && auth.contains(n.validator) {
            prev.push(n)
        } else {
            prev
        }
    }
}

/// The held-back justifications for block `hash`, in order.
pub open spec fn delayed_for(s: Seq<(u64, BadgerJustification)>, hash: u64) -> Seq<BadgerJustification>
    decreases s.len(),
{
    if s.len() == 0 {
        Seq::empty()
    } else if s.last().1.hash == hash {
        delayed_for(s.drop_last(), hash).push(s.last().1)
    } else {
        delayed_for(s.drop_last(), hash)
    }
}

/// The held-back justifications for other blocks, in order.
pub open spec fn delayed_other(s: Seq<(u64, BadgerJustification)>, hash: u64) -> Seq<(u64, BadgerJustification)>
    decreases s.len(),
{
    if s.len() == 0 {
        Seq::empty()
    } else if s.last().1.hash == hash {
        delayed_other(s.drop_last(), hash)
    } else {
        delayed_other(s.drop_last(), hash).push(s.last())
    }
}

/// Validators of a list of commits.
pub open spec fn commit_validators(cs: Seq<BadgerAuthCommit>) -> Seq<u64> {
    cs.map_values(|c: BadgerAuthCommit| c.validator)
}

/// How many entries of `auths` occur in `present`.
pub open spec fn count_present(auths: Seq<u64>, present: Seq<u64>) -> nat
    decreases auths.len(),
{
    if auths.len() == 0 {
        0
    } else {
        count_present(auths.drop_last(), present) + if present.contains(auths.last()) {
            1nat
        } else {
            0nat
        }
    }
}

/// A justification is judged only for a block at most one ahead of, and at
/// most one behind, our best block.
pub open spec fn sync_window(num: u64, best: u64) -> bool {
    num <= best + 1 && num + 1 >= best
}

/// Whether deciding on `message` counts a quorum of the authorities, which
/// needs at least one: a sync report in the window, with a valid
/// justification, that an observer running consensus checks.
pub open spec fn needs_authorities(m: BadgerStateMachine, message: GossipMessage) -> bool {
    match message {
        GossipMessage::SyncGossip { sync, justification_valid, our_best, .. } => {
            &&& m.phase == BadgerState::Badger
            &&& !m.authorities@.contains(m.self_id)
            &&& sync_window(sync.data.num, our_best)
            &&& justification_valid
        },
        _ => false,
    }
}

/// Whether a full justification is accepted: in the window, with valid
/// signatures, and signed by a quorum of the authorities.
pub open spec fn full_justification_accepted(
    d: BadgerSyncData,
    best: u64,
    signatures_valid: bool,
    auths: Seq<u64>,
) -> bool {
    &&& sync_window(d.num, best)
    &&& signatures_valid
    &&& count_present(auths, commit_validators(d.justification.commits@)) >= quorum(auths.len())
}

/// Ages delayed justifications by one completed block and drops those that
/// reach `MAX_DELAYED_JUSTIFICATIONS`.
pub open spec fn aged(s: Seq<(u64, BadgerJustification)>) -> Seq<(u64, BadgerJustification)>
    decreases s.len(),
{
    if s.len() == 0 {
        Seq::empty()
    } else if s.last().0 + 1 < MAX_DELAYED_JUSTIFICATIONS {
        aged(s.drop_last()).push(((s.last().0 + 1) as u64, s.last().1))
    } else {
        aged(s.drop_last())
    }
}

/// Whether a delayed justification for `hash` by `validator` is held.
pub open spec fn delayed_has(s: Seq<(u64, BadgerJustification)>, hash: u64, validator: u64) -> bool {
    exists|i: int| 0 <= i < s.len() && s[i].1.hash == hash && s[i].1.validator == validator
}

/// No two held justifications are by the same validator for the same
/// block.
pub open spec fn delayed_distinct(s: Seq<(u64, BadgerJustification)>) -> bool {
    forall|i: int, j: int|
        0 <= i < j < s.len() ==> !(#[trigger] s[i].1.hash == #[trigger] s[j].1.hash && s[i].1.validator
            == s[j].1.validator)
}

/// Index of the first report of authority `id`, or -1.
pub open spec fn first_report(vs: Seq<ValidatorSync>, id: u64) -> int
    decreases vs.len(),
{
    if vs.len() == 0 {
        -1
    } else if vs[0].id == id {
        0
    } else if first_report(vs.drop_first(), id) < 0 {
        -1
    } else {
        first_report(vs.drop_first(), id) + 1
    }
}

/// The reports after authority `id` reported block `num` with `hash`: its
/// first report is raised to a newer block, or a report is added.
pub open spec fn reports_after(vs: Seq<ValidatorSync>, id: u64, num: u64, hash: u64) -> Seq<
    ValidatorSync,
> {
    let i = first_report(vs, id);
    if i < 0 {
        vs.push(ValidatorSync { best_block_num: num, best_block_hash: hash, id: id })
    } else if vs[i].best_block_num < num {
        vs.update(i, ValidatorSync { best_block_num: num, best_block_hash: hash, ..vs[i] })
    } else {
        vs
    }
}

/// Sync is complete when every report is at our block and every authority
/// reported.
pub open spec fn sync_complete(vs: Seq<ValidatorSync>, our: u64, n_auth: nat) -> bool {
    (forall|i: int| 0 <= i < vs.len() ==> vs[i].best_block_num == our) && vs.len() == n_auth
}

/// The reports after a sync message is processed.
pub open spec fn reports_after_sync(
    vs: Seq<ValidatorSync>,
    auths: Seq<u64>,
    sync: BadgerSyncGossip,
    signature_valid: bool,
    justification_valid: bool,
    our_best: u64,
) -> Seq<ValidatorSync> {
    if signature_valid && auths.contains(sync.source) && sync.data.num >= our_best
        && full_justification_accepted(sync.data, our_best, justification_valid, auths) {
        reports_after(vs, sync.source, sync.data.num, sync.data.justification.hash)
    } else {
        vs
    }
}

/// The verdict on a session announcement for set `ses_id` in set `cset`.
pub open spec fn session_verdict_spec(ses_id: u64, cset: u64) -> (ValidationResult, bool) {
    if ses_id == cset {
        (ValidationResult::Discard, false)
    } else if ses_id < cset {
        (ValidationResult::Punish(0i32), false)
    } else if ses_id > cset + 1 {
        (ValidationResult::Discard, false)
    } else {
        (ValidationResult::Discard, true)
    }
}

/// How many of `auths` have announced a session key to `peers`.
pub open spec fn count_announced(auths: Seq<u64>, peers: Peers) -> nat
    decreases auths.len(),
{
    if auths.len() == 0 {
        0
    } else {
        count_announced(auths.drop_last(), peers) + if peers.peer_of(auths.last()) is Some {
            1nat
        } else {
            0nat
        }
    }
}

/// Whether the transaction queue takes one more transaction.
pub open spec fn queue_has_room(len: nat) -> bool {
    len < MAX_QUEUE_LEN
}

/// The queue of transactions is full.
#[derive(Clone, Copy, Debug, PartialEq, Eq, Structural)]
pub enum QueueError {
    TooManyQueued,
}

pub open spec fn decision(result: ValidationResult, repropagate: bool, next: FollowUp) -> Decision {
    Decision { result, repropagate, next }
}

/// Whether `x` is in `v`.
pub fn contains_id(v: &Vec<u64>, x: u64) -> (r: bool)
    ensures
        r == v@.contains(x),
{
    let mut i: usize = 0;
    while i < v.len()
        invariant
            0 <= i <= v@.len(),
            forall|j: int| 0 <= j < i ==> v@[j] != x,
        decreases v@.len() - i,
    {
        if v[i] == x {
            return true;
        }
        i = i + 1;
    }
    false
}

fn has_signed(js: &Vec<BadgerJustification>, v: u64) -> (r: bool)
    ensures
        r == signed_by(js@, v),
{
    let mut i: usize = 0;
    while i < js.len()
        invariant
            0 <= i <= js@.len(),
            forall|j: int| 0 <= j < i ==> js@[j].validator != v,
        decreases js@.len() - i,
    {
        if js[i].validator == v {
            return true;
        }
        i = i + 1;
    }
    false
}

/// Offers justification `n_jst` to the collector of its block.
pub fn process_justification(n_jst: BadgerJustification, existing: &mut JustificationCollector)
    ensures
        final(existing).contemp_auth == old(existing).contemp_auth,
        final(existing).justification@ == justifications_after(*old(existing), n_jst),
{
    let admit_it = match &existing.contemp_auth {
        None => false,
        Some(auths) => !has_signed(&existing.justification, n_jst.validator) && contains_id(
            auths,
            n_jst.validator,
        ),
    };
    if admit_it {
        existing.justification.push(n_jst);
    }
}

fn commit_present(commits: &Vec<BadgerAuthCommit>, x: u64) -> (r: bool)
    ensures
        r == commit_validators(commits@).contains(x),
{
    let mut i: usize = 0;
    while i < commits.len()
        invariant
            0 <= i <= commits@.len(),
            forall|j: int| 0 <= j < i ==> commits@[j].validator != x,
        decreases commits@.len() - i,
    {
        if commits[i].validator == x {
            proof {
                assert(commit_validators(commits@)[i as int] == x);
            }
            return true;
        }
        i = i + 1;
    }
    proof {
        assert forall|j: int| 0 <= j < commit_validators(commits@).len() implies commit_validators(
            commits@,
        )[j] != x by {}
    }
    false
}

proof fn lemma_count_present_bound(auths: Seq<u64>, present: Seq<u64>)
    ensures
        count_present(auths, present) <= auths.len(),
    decreases auths.len(),
{
    if auths.len() > 0 {
        lemma_count_present_bound(auths.drop_last(), present);
    }
}

/// Whether a full justification finalizes block `just.num`, given our best
/// block number and whether all its commit signatures verify.
pub fn verify_full_justification(
    just: &BadgerSyncData,
    best_number: u64,
    signatures_valid: bool,
    authorities: &Vec<u64>,
) -> (r: bool)
    requires
        sync_window(just.num, best_number) && signatures_valid ==> authorities@.len() > 0,
    ensures
        r == full_justification_accepted(*just, best_number, signatures_valid, authorities@),
{
    if just.num > best_number && just.num - best_number > 1 {
        return false;
    }
    if just.num < best_number && best_number - just.num > 1 {
        return false;
    }
    if !signatures_valid {
        return false;
    }
    let mut count_total: usize = 0;
    let mut count_accepted: usize = 0;
    let ghost present = commit_validators(just.justification.commits@);
    while count_total < authorities.len()
        invariant
            0 <= count_total <= authorities@.len(),
            present == commit_validators(just.justification.commits@),
            count_accepted == count_present(authorities@.take(count_total as int), present),
            count_accepted <= count_total,
        decreases authorities@.len() - count_total,
    {
        proof {
            assert(authorities@.take(count_total + 1).drop_last() =~= authorities@.take(
                count_total as int,
            ));
            assert(authorities@.take(count_total + 1).last() == authorities@[count_total as int]);
        }
        if commit_present(&just.justification.commits, authorities[count_total]) {
            count_accepted = count_accepted + 1;
        }
        count_total = count_total + 1;
    }
    proof {
        assert(authorities@.take(count_total as int) =~= authorities@);
    }
    let tolerated = count_total - hbbft::util::max_faulty(count_total);
    count_accepted >= tolerated
}

/// Whether the collected signatures of a block reach the quorum of its
/// `authn` authorities.
pub fn justification_complete(authn: usize, collected: usize) -> (r: bool)
    requires
        authn > 0,
    ensures
        r == (collected >= quorum(authn as nat)),
{
    let tolerated = authn - hbbft::util::max_faulty(authn);
    collected >= tolerated
}

/// Ages the delayed justifications after a block completed.
pub fn age_delayed_justifications(delayed: &mut Vec<(u64, BadgerJustification)>)
    requires
        forall|i: int| 0 <= i < old(delayed)@.len() ==> old(delayed)@[i].0 < u64::MAX,
    ensures
        final(delayed)@ == aged(old(delayed)@),
{
    let ghost orig = delayed@;
    let mut out: Vec<(u64, BadgerJustification)> = Vec::new();
    let ghost mut k: int = 0;
    while delayed.len() > 0
        invariant
            0 <= k <= orig.len(),
            delayed@ == orig.skip(k),
            out@ == aged(orig.take(k)),
            forall|i: int| 0 <= i < orig.len() ==> orig[i].0 < u64::MAX,
        decreases delayed@.len(),
    {
        let ghost rest = delayed@;
        let (age, just) = delayed.remove(0);
        proof {
            assert(rest[0] == orig[k]);
            assert(orig.take(k + 1).drop_last() =~= orig.take(k));
            assert(orig.take(k + 1).last() == orig[k]);
            assert(delayed@ =~= orig.skip(k + 1));
        }
        if age + 1 < MAX_DELAYED_JUSTIFICATIONS {
            out.push((age + 1, just));
        }
        proof {
            k = k + 1;
        }
    }
    proof {
        assert(orig.take(k) =~= orig);
    }
    *delayed = out;
}

/// Whether a justification for a block with the given header number (None
/// when the block is unknown) has expired: unknown blocks, and blocks more
/// than five behind the finalized one.
pub fn is_justification_expired(header_number: Option<u64>, finalized_number: u64) -> (r: bool)
    ensures
        r == match header_number {
            Some(n) => n + 5 < finalized_number,
            None => true,
        },
{
    match header_number {
        Some(n) => n < finalized_number && finalized_number - n > 5,
        None => true,
    }
}

/// A kept gossip message as its expiry is judged: its kind, with whether
/// the topic it is kept under is the one its kind and content give.
pub enum KeptMessage {
    /// A session announcement for set `ses_id`.
    Session { ses_id: u64, topic_matches: bool },
    /// A justification; `header_number` is the number of its block if that
    /// block is known, `finalized_number` our finalized number.
    BadgerJustification { topic_matches: bool, header_number: Option<u64>, finalized_number: u64 },
    /// Any other message.
    Other,
}

/// Whether a kept message has expired, in set `set_id`: one that did not
/// decode (`None`) or is kept under another topic, a session announcement
/// of an earlier set, an expired justification, and every other message.
pub fn message_expired(msg: &Option<KeptMessage>, set_id: u64) -> (r: bool)
    ensures
        r == match *msg {
            None => true,
            Some(KeptMessage::Session { ses_id, topic_matches }) => !topic_matches || ses_id < set_id,
            Some(KeptMessage::BadgerJustification { topic_matches, header_number, finalized_number }) => {
                !topic_matches || match header_number {
                    Some(n) => n + 5 < finalized_number,
                    None => true,
                }
            },
            Some(KeptMessage::Other) => true,
        },
{
    match msg {
        None => true,
        Some(KeptMessage::Session { ses_id, topic_matches }) => {
            if !*topic_matches {
                return true;
            }
            *ses_id < set_id
        },
        Some(KeptMessage::BadgerJustification { topic_matches, header_number, finalized_number }) => {
            if !*topic_matches {
                return true;
            }
            is_justification_expired(*header_number, *finalized_number)
        },
        Some(KeptMessage::Other) => true,
    }
}

/// Holds a justification whose block has no collector yet; a copy already
/// held is dropped. Returns whether it was already held.
pub fn record_delayed_justification(delayed: &mut Vec<(u64, BadgerJustification)>, just: BadgerJustification) -> (r:
    bool)
    ensures
        r == delayed_has(old(delayed)@, just.hash, just.validator),
        final(delayed)@ == if r {
            old(delayed)@
        } else {
            old(delayed)@.push((0u64, just))
        },
        delayed_distinct(old(delayed)@) ==> delayed_distinct(final(delayed)@),
{
    let mut i: usize = 0;
    while i < delayed.len()
        invariant
            0 <= i <= delayed@.len(),
            forall|j: int|
                0 <= j < i ==> !(delayed@[j].1.hash == just.hash && delayed@[j].1.validator
                    == just.validator),
        decreases delayed@.len() - i,
    {
        if delayed[i].1.hash == just.hash && delayed[i].1.validator == just.validator {
            return true;
        }
        i = i + 1;
    }
    delayed.push((0, just));
    false
}

/// Whether every authority reported our block number.
pub fn is_sync_complete(our_num: u64, validators: &Vec<ValidatorSync>, n_authorities: usize) -> (r:
    bool)
    ensures
        r == sync_complete(validators@, our_num, n_authorities as nat),
{
    let mut cnt: usize = 0;
    while cnt < validators.len()
        invariant
            0 <= cnt <= validators@.len(),
            forall|i: int| 0 <= i < cnt ==> validators@[i].best_block_num == our_num,
        decreases validators@.len() - cnt,
    {
        if our_num != validators[cnt].best_block_num {
            return false;
        }
        cnt = cnt + 1;
    }
    n_authorities == cnt
}

proof fn lemma_first_report(vs: Seq<ValidatorSync>, id: u64, i: int)
    requires
        0 <= i < vs.len(),
        vs[i].id == id,
        forall|j: int| 0 <= j < i ==> vs[j].id != id,
    ensures
        first_report(vs, id) == i,
    decreases i,
{
    if i > 0 {
        lemma_first_report(vs.drop_first(), id, i - 1);
    }
}

proof fn lemma_no_report(vs: Seq<ValidatorSync>, id: u64)
    requires
        forall|j: int| 0 <= j < vs.len() ==> vs[j].id != id,
    ensures
        first_report(vs, id) == -1,
    decreases vs.len(),
{
    if vs.len() > 0 {
        lemma_no_report(vs.drop_first(), id);
    }
}

/// Records that authority `source` reached block `num` with `hash`.
pub fn record_sync(validators: &mut Vec<ValidatorSync>, source: u64, num: u64, hash: u64)
    ensures
        final(validators)@ == reports_after(old(validators)@, source, num, hash),
{
    let mut i: usize = 0;
    while i < validators.len()
        invariant
            0 <= i <= validators@.len(),
            validators@ == old(validators)@,
            forall|j: int| 0 <= j < i ==> validators@[j].id != source,
        decreases validators@.len() - i,
    {
        if validators[i].id == source {
            proof {
                lemma_first_report(validators@, source, i as int);
            }
            if validators[i].best_block_num < num {
                let mut v = validators[i];
                v.best_block_num = num;
                v.best_block_hash = hash;
                validators.set(i, v);
            }
            return;
        }
        i = i + 1;
    }
    proof {
        lemma_no_report(validators@, source);
    }
    validators.push(ValidatorSync { best_block_num: num, best_block_hash: hash, id: source });
}

/// Processes a sync report and tells whether sync is now complete.
pub fn process_sync_message(
    validators: &mut Vec<ValidatorSync>,
    authorities: &Vec<u64>,
    sync: &BadgerSyncGossip,
    signature_valid: bool,
    justification_valid: bool,
    our_best: u64,
) -> (r: bool)
    ensures
        final(validators)@ == reports_after_sync(
            old(validators)@,
            authorities@,
            *sync,
            signature_valid,
            justification_valid,
            our_best,
        ),
        r == sync_complete(final(validators)@, our_best, authorities@.len()),
{
    if !signature_valid {
        return is_sync_complete(our_best, validators, authorities.len());
    }
    if !contains_id(authorities, sync.source) {
        return is_sync_complete(our_best, validators, authorities.len());
    }
    if sync.data.num < our_best {
        return is_sync_complete(our_best, validators, authorities.len());
    }
    if verify_full_justification(&sync.data, our_best, justification_valid, authorities) {
        record_sync(validators, sync.source, sync.data.num, sync.data.justification.hash);
    }
    is_sync_complete(our_best, validators, authorities.len())
}

/// Queues a transaction until consensus runs.
pub fn queue_transaction(queued: &mut Vec<Vec<u8>>, tx: Vec<u8>) -> (r: Result<(), QueueError>)
    ensures
        r is Ok <==> queue_has_room(old(queued)@.len()),
        r is Ok ==> final(queued)@ == old(queued)@.push(tx),
        r is Err ==> final(queued)@ == old(queued)@,
{
    if queued.len() >= MAX_QUEUE_LEN {
        return Err(QueueError::TooManyQueued);
    }
    queued.push(tx);
    Ok(())
}

/// The verdict on a session announcement for set `ses_id` while in set
/// `cset_id`.
pub fn session_verdict(ses_id: u64, cset_id: u64) -> (r: (ValidationResult, bool))
    ensures
        r == session_verdict_spec(ses_id, cset_id),
{
    if ses_id == cset_id {
        (ValidationResult::Discard, false)
    } else if ses_id < cset_id {
        (ValidationResult::Punish(0i32), false)
    } else if ses_id - cset_id > 1 {
        (ValidationResult::Discard, false)
    } else {
        (ValidationResult::Discard, true)
    }
}

/// The consensus node's state as its gossip decisions read it.
pub struct BadgerStateMachine {
    pub phase: BadgerState,
    /// The current authority set id.
    pub set_id: u64,
    pub authorities: Vec<u64>,
    /// Our authority key.
    pub self_id: u64,
    /// The authority key we sign gossip with.
    pub my_auth_id: u64,
    /// Our network peer.
    pub my_peer_id: u64,
    pub peers: Peers,
    pub queued_transactions: Vec<Vec<u8>>,
    /// Collectors keyed by block hash.
    pub justification_collector: Vec<(u64, JustificationCollector)>,
    pub delayed_justifications: Vec<(u64, BadgerJustification)>,
    pub sync_validators: Vec<ValidatorSync>,
    /// The hash of the block awaiting finalization, if any.
    pub queued_block: Option<u64>,
    /// Messages that came too early, kept to be handled again later.
    pub queued_messages: Vec<GossipMessage>,
}

/// The decision on a sync report, given whether sync became complete.
pub open spec fn sync_decision(
    m: BadgerStateMachine,
    sync: BadgerSyncGossip,
    justification_valid: bool,
    our_best: u64,
    complete: bool,
) -> Decision {
    match m.phase {
        BadgerState::AwaitingValidators => decision(
            ValidationResult::Discard,
            false,
            FollowUp::Nothing,
        ),
        BadgerState::AwaitingJoinPlan => decision(ValidationResult::Discard, false, FollowUp::Nothing),
        BadgerState::InitialSync => decision(
            ValidationResult::Discard,
            false,
            if complete {
                FollowUp::ProceedToKeygen
            } else {
                FollowUp::Nothing
            },
        ),
        BadgerState::KeyGen => decision(ValidationResult::Discard, true, FollowUp::Nothing),
        BadgerState::Badger => decision(
            ValidationResult::Discard,
            false,
            if !m.is_authority() && full_justification_accepted(
                sync.data,
                our_best,
                justification_valid,
                m.authorities@,
            ) && m.queued_block == Some(sync.data.justification.hash) {
                FollowUp::PreFinalize(sync.data.justification.hash)
            } else {
                FollowUp::Nothing
            },
        ),
    }
}

/// While consensus runs, a node that is no authority finalizes its queued
/// block with a sync report for it whose full justification is accepted.
pub proof fn lemma_observer_finalizes_from_sync(
    m: BadgerStateMachine,
    sync: BadgerSyncGossip,
    justification_valid: bool,
    our_best: u64,
    complete: bool,
)
    requires
        m.phase == BadgerState::Badger,
        !m.authorities@.contains(m.self_id),
        m.queued_block == Some(sync.data.justification.hash),
        full_justification_accepted(sync.data, our_best, justification_valid, m.authorities@),
    ensures
        sync_decision(m, sync, justification_valid, our_best, complete).next == FollowUp::PreFinalize(
            sync.data.justification.hash,
        ),
{
}

/// An authority never finalizes a block from a sync report: its blocks are
/// finalized by the justifications it collects.
pub proof fn lemma_authority_never_finalizes_from_sync(
    m: BadgerStateMachine,
    sync: BadgerSyncGossip,
    justification_valid: bool,
    our_best: u64,
    complete: bool,
)
    requires
        m.authorities@.contains(m.self_id),
    ensures
        !(sync_decision(m, sync, justification_valid, our_best, complete).next is PreFinalize),
{
}

/// The peer a key-generation or consensus payload is attributed to: the
/// peer that announced the originator, or our own peer for our own key.
pub open spec fn originator_peer(m: BadgerStateMachine, originator: u64) -> Option<u64> {
    if m.peers.peer_of(originator) is Some {
        m.peers.peer_of(originator)
    } else if originator == m.my_auth_id {
        Some(m.my_peer_id)
    } else {
        None
    }
}

/// The decision on key-generation data.
pub open spec fn keygen_decision(m: BadgerStateMachine, originator: u64, decoded: bool) -> Decision {
    match originator_peer(m, originator) {
        None => decision(ValidationResult::Discard, true, FollowUp::Nothing),
        Some(p) => if m.phase == BadgerState::KeyGen {
            if decoded {
                decision(ValidationResult::Discard, false, FollowUp::ProcessKeygen(p))
            } else {
                decision(ValidationResult::Punish(-2i32), false, FollowUp::Nothing)
            }
        } else if m.phase == BadgerState::AwaitingValidators {
            decision(ValidationResult::Discard, true, FollowUp::Nothing)
        } else {
            decision(ValidationResult::Discard, false, FollowUp::Nothing)
        },
    }
}

/// The decision on consensus data.
pub open spec fn badger_decision(m: BadgerStateMachine, originator: u64, decoded: bool) -> Decision {
    match originator_peer(m, originator) {
        None => decision(ValidationResult::Discard, true, FollowUp::Nothing),
        Some(p) => match m.phase {
            BadgerState::Badger => decision(
                ValidationResult::Discard,
                false,
                if decoded {
                    FollowUp::HandleBadger(p)
                } else {
                    FollowUp::Nothing
                },
            ),
            BadgerState::KeyGen => decision(ValidationResult::Discard, true, FollowUp::Nothing),
            BadgerState::AwaitingValidators => decision(
                ValidationResult::Discard,
                true,
                FollowUp::Nothing,
            ),
            _ => decision(ValidationResult::Punish(-1i32), false, FollowUp::Nothing),
        },
    }
}

/// Whether a justification reaches the collectors: it verifies, we are an
/// authority, and its block is not known to be finalized already.
pub open spec fn justification_admitted(
    m: BadgerStateMachine,
    signature_valid: bool,
    header_number: Option<u64>,
    finalized_number: u64,
) -> bool {
    &&& signature_valid
    &&& m.is_authority()
    &&& !(header_number is Some && header_number.unwrap() <= finalized_number)
}

/// What a justification leads to: with an invalid signature the sender is
/// punished; one that is not admitted changes nothing; an admitted one is
/// offered to the collector of its block, or held back until the block is
/// produced.
pub open spec fn justification_handled(
    before: BadgerStateMachine,
    just: BadgerJustification,
    signature_valid: bool,
    header_number: Option<u64>,
    finalized_number: u64,
    after: BadgerStateMachine,
    r: Decision,
) -> bool {
    &&& after.same_but_justifications(&before)
    &&& !signature_valid ==> r == decision(ValidationResult::Punish(-8i32), false, FollowUp::Nothing)
    &&& signature_valid && !justification_admitted(before, signature_valid, header_number, finalized_number)
        ==> r == decision(ValidationResult::Discard, false, FollowUp::Nothing)
    &&& !justification_admitted(before, signature_valid, header_number, finalized_number) ==> {
        &&& after.justification_collector@ == before.justification_collector@
        &&& after.delayed_justifications@ == before.delayed_justifications@
    }
    &&& justification_admitted(before, signature_valid, header_number, finalized_number)
        ==> match before.collector(just.hash) {
        Some(c) => {
            &&& forall|h: u64| #[trigger]
                after.collector(h) == if h == just.hash {
                    Some(
                        JustificationCollector {
                            contemp_auth: c.contemp_auth,
                            justification: after.collector(h).unwrap().justification,
                        },
                    )
                } else {
                    before.collector(h)
                }
            &&& after.collector(just.hash).unwrap().justification@ == justifications_after(c, just)
            &&& after.delayed_justifications@ == before.delayed_justifications@
            &&& r == decision(ValidationResult::Discard, false, FollowUp::CheckJustification(just.hash))
        },
        None => {
            &&& after.justification_collector@ == before.justification_collector@
            &&& after.delayed_justifications@ == if delayed_has(
                before.delayed_justifications@,
                just.hash,
                just.validator,
            ) {
                before.delayed_justifications@
            } else {
                before.delayed_justifications@.push((0u64, just))
            }
            &&& r == decision(ValidationResult::Discard, false, FollowUp::Nothing)
        },
    }
}

/// Whether every authority has a known peer, ourselves included.
pub open spec fn validators_known(m: BadgerStateMachine) -> bool {
    count_announced(m.authorities@, m.peers) + (if m.is_authority() && m.peers.peer_of(m.self_id)
        is None {
        1nat
    } else {
        0nat
    }) == m.authorities@.len()
}

/// What a session announcement leads to: in the current set the announcing
/// peer's key is recorded and, while awaiting validators, key generation
/// starts once every authority is known; in another set nothing changes.
pub open spec fn session_handled(
    before: BadgerStateMachine,
    ses_id: u64,
    session_key: u64,
    peer_id: u64,
    after: BadgerStateMachine,
    r: Decision,
) -> bool {
    &&& after.same_but_peers(&before)
    &&& ses_id == before.set_id ==> {
        &&& forall|k: u64| #[trigger]
            after.peers.peer_of(k) == before.peers.inverse_after_update(peer_id, session_key, k)
        &&& forall|k: u64| #[trigger]
            after.peers.info(k) == if k == peer_id {
                Some(
                    PeerInfo {
                        id: Some(session_key),
                        net_id: peer_id,
                        state: match before.peers.info(peer_id) {
                            Some(p) => p.state,
                            None => PeerConsensusState::Unknown,
                        },
                    },
                )
            } else {
                before.peers.info(k)
            }
        &&& r == decision(
            ValidationResult::Discard,
            false,
            if before.phase == BadgerState::AwaitingValidators && validators_known(after) {
                FollowUp::ProceedToKeygen
            } else {
                FollowUp::Nothing
            },
        )
    }
    &&& ses_id != before.set_id ==> {
        &&& after.peers == before.peers
        &&& r == decision(
            session_verdict_spec(ses_id, before.set_id).0,
            session_verdict_spec(ses_id, before.set_id).1,
            FollowUp::Nothing,
        )
    }
}

/// What deciding on `message` in state `before` may lead to: the state
/// `after` and the decision `r`.
pub open spec fn handled(
    before: BadgerStateMachine,
    message: GossipMessage,
    after: BadgerStateMachine,
    r: Decision,
) -> bool {
    &&& after.wf()
    &&& match message {
        GossipMessage::Session { ses_id, session_key, peer_id } => session_handled(
            before,
            ses_id,
            session_key,
            peer_id,
            after,
            r,
        ),
        GossipMessage::SyncGossip { sync, signature_valid, justification_valid, our_best } => {
            &&& after.same_but_reports(&before)
            &&& r == sync_decision(
                before,
                sync,
                justification_valid,
                our_best,
                sync_complete(after.sync_validators@, our_best, before.authorities@.len()),
            )
        },
        GossipMessage::KeygenData { originator, decoded } => {
            &&& after.same_but_queue(&before)
            &&& r == keygen_decision(before, originator, decoded)
        },
        GossipMessage::BadgerData { originator, decoded } => {
            &&& after.same_but_queue(&before)
            &&& r == badger_decision(before, originator, decoded)
        },
        GossipMessage::JustificationData { just, signature_valid, header_number, finalized_number } => {
            justification_handled(before, just, signature_valid, header_number, finalized_number, after, r)
        },
    }
}

/// The decision on a message that came too early and is kept to be handled
/// again later, or `None` if the message is handled now.
pub open spec fn deferral(m: BadgerStateMachine, message: GossipMessage) -> Option<Decision> {
    match message {
        GossipMessage::Session { ses_id, .. } => if ses_id != m.set_id && session_verdict_spec(
            ses_id,
            m.set_id,
        ).1 {
            Some(decision(session_verdict_spec(ses_id, m.set_id).0, true, FollowUp::Nothing))
        } else {
            None
        },
        GossipMessage::SyncGossip { .. } => if m.phase == BadgerState::KeyGen {
            Some(decision(ValidationResult::Discard, true, FollowUp::Nothing))
        } else {
            None
        },
        GossipMessage::KeygenData { originator, decoded } => if keygen_decision(
            m,
            originator,
            decoded,
        ).repropagate {
            Some(keygen_decision(m, originator, decoded))
        } else {
            None
        },
        GossipMessage::BadgerData { originator, decoded } => if badger_decision(
            m,
            originator,
            decoded,
        ).repropagate {
            Some(badger_decision(m, originator, decoded))
        } else {
            None
        },
        GossipMessage::JustificationData { .. } => None,
    }
}

/// What a decision leads to does not depend on the waiting messages.
pub proof fn lemma_handled_ignores_queue(
    before: BadgerStateMachine,
    message: GossipMessage,
    a1: BadgerStateMachine,
    a2: BadgerStateMachine,
    r: Decision,
)
    requires
        handled(before, message, a1, r),
        a2.same_but_queue(&a1),
    ensures
        handled(before, message, a2, r),
{
    assert(forall|h: u64| #[trigger] a2.collector(h) == a1.collector(h));
}

/// What a decision leads to does not depend on the waiting messages of
/// the state it starts from either.
proof fn lemma_handled_from_same(
    b0: BadgerStateMachine,
    b1: BadgerStateMachine,
    message: GossipMessage,
    after: BadgerStateMachine,
    r: Decision,
)
    requires
        handled(b1, message, after, r),
        b1.same_but_queue(&b0),
        b1.queued_messages@ == b0.queued_messages@,
    ensures
        handled(b0, message, after, r),
{
    assert(forall|h: u64| #[trigger] b1.collector(h) == b0.collector(h));
}

/// Why a vote for validators is refused.
#[derive(Clone, Copy, Debug, PartialEq, Eq, Structural)]
pub enum VoteError {
    /// An authority has no known peer.
    MissingNodeId,
    /// Consensus is not running.
    InvalidState,
}

impl VoteError {
    /// The text of the message the node reports for this error.
    pub open spec fn message_text(&self) -> Seq<char> {
        match self {
            VoteError::MissingNodeId => "Missing NodeId"@,
            VoteError::InvalidState => "Invalid state"@,
        }
    }

    /// The message the node reports for this error.
    pub fn as_str(&self) -> (r: &'static str)
        ensures
            r@ == self.message_text(),
    {
        match self {
            VoteError::MissingNodeId => "Missing NodeId",
            VoteError::InvalidState => "Invalid state",
        }
    }
}

/// The authority of `auths` a vote gives peer `p`: the last one that peer
/// announced.
pub open spec fn voted_for(peers: Peers, auths: Seq<u64>, p: u64) -> Option<u64>
    decreases auths.len(),
{
    if auths.len() == 0 {
        None
    } else if peers.peer_of(auths.last()) == Some(p) {
        Some(auths.last())
    } else {
        voted_for(peers, auths.drop_last(), p)
    }
}

/// A replay of the waiting messages, carried by the caller from step to step.
/// It runs in rounds: each round looks at every waiting message once, in
/// arrival order, and the replay ends after a round that handled none.
pub struct Replay {
    /// Messages of the current round not looked at yet.
    pub pending: Vec<GossipMessage>,
    /// Messages of the current round that are still too early.
    pub kept: Vec<GossipMessage>,
    /// Whether a message was handled in the current round.
    pub progressed: bool,
    /// Rounds completed.
    pub rounds: u64,
    pub finished: bool,
}

/// The messages waiting in the machine and in the replay.
pub open spec fn waiting(m: BadgerStateMachine, rp: Replay) -> nat {
    m.queued_messages@.len() + rp.pending@.len() + rp.kept@.len()
}

/// The position of the first message of `s` that is not too early in `m`.
pub open spec fn first_due(m: BadgerStateMachine, s: Seq<GossipMessage>) -> Option<int>
    decreases s.len(),
{
    if s.len() == 0 {
        None
    } else if deferral(m, s[0]) is None {
        Some(0)
    } else {
        match first_due(m, s.drop_first()) {
            Some(i) => Some(i + 1),
            None => None,
        }
    }
}

/// The next step of a replay that has not ended, in machine state `m`:
/// the message it handles, with the messages of the round still to look
/// at, those kept as too early, and the rounds completed; `None` where the
/// replay ends instead. The current round is looked through first, the
/// messages found too early being kept; where none is due and the round
/// handled one, a new round looks through the kept messages, then those
/// just passed over, in their order.
pub open spec fn replay_step(m: BadgerStateMachine, rp: Replay) -> Option<
    (GossipMessage, Seq<GossipMessage>, Seq<GossipMessage>, u64),
> {
    let p = rp.pending@;
    match first_due(m, p) {
        Some(i) => Some((p[i], p.skip(i + 1), rp.kept@ + p.take(i), rp.rounds)),
        None => {
            let s2 = rp.kept@ + p;
            if rp.progressed && rp.rounds + 1 < MAX_REPLAY_ROUNDS {
                match first_due(m, s2) {
                    Some(j) => Some((s2[j], s2.skip(j + 1), s2.take(j), (rp.rounds + 1) as u64)),
                    None => None,
                }
            } else {
                None
            }
        }
    }
}

proof fn lemma_first_due(m: BadgerStateMachine, s: Seq<GossipMessage>, i: int)
    requires
        0 <= i <= s.len(),
        forall|j: int| 0 <= j < i ==> deferral(m, #[trigger] s[j]) is Some,
    ensures
        i < s.len() && deferral(m, s[i]) is None ==> first_due(m, s) == Some(i),
        i == s.len() ==> first_due(m, s) is None,
        first_due(m, s) matches Some(k) ==> i <= k < s.len() && deferral(m, s[k]) is None,
    decreases s.len(),
{
    if s.len() > 0 {
        if i == 0 {
            if deferral(m, s[0]) is None {
            } else {
                lemma_first_due_any(m, s.drop_first());
            }
        } else {
            assert(deferral(m, s[0]) is Some);
            assert forall|j: int| 0 <= j < i - 1 implies deferral(m, #[trigger] s.drop_first()[j]) is Some by {
                assert(s.drop_first()[j] == s[j + 1]);
            }
            lemma_first_due(m, s.drop_first(), i - 1);
            if i < s.len() {
                assert(s.drop_first()[i - 1] == s[i]);
            }
        }
    }
}

proof fn lemma_first_due_any(m: BadgerStateMachine, s: Seq<GossipMessage>)
    ensures
        first_due(m, s) matches Some(k) ==> 0 <= k < s.len() && deferral(m, s[k]) is None,
    decreases s.len(),
{
    if s.len() > 0 && deferral(m, s[0]) is Some {
        lemma_first_due_any(m, s.drop_first());
        if let Some(k) = first_due(m, s.drop_first()) {
            assert(s.drop_first()[k] == s[k + 1]);
        }
    }
}

/// The replay fits the machine: while it runs the machine's queue is
/// empty, and in a round that handled nothing yet every kept message is
/// still too early.
pub open spec fn replay_consistent(m: BadgerStateMachine, rp: Replay) -> bool {
    &&& rp.rounds <= MAX_REPLAY_ROUNDS
    &&& !rp.finished ==> rp.rounds < MAX_REPLAY_ROUNDS && m.queued_messages@.len() == 0
    &&& rp.finished ==> rp.pending@.len() == 0 && rp.kept@.len() == 0
    &&& !rp.progressed ==> forall|k: int|
        0 <= k < rp.kept@.len() ==> deferral(m, #[trigger] rp.kept@[k]) is Some
}

impl BadgerStateMachine {
    /// Whether we are one of the current authorities.
    pub open spec fn is_authority(&self) -> bool {
        self.authorities@.contains(self.self_id)
    }

    /// The collector for block `hash`.
    pub open spec fn collector(&self, hash: u64) -> Option<JustificationCollector> {
        find_opt(self.justification_collector@, hash)
    }

    /// The peer registry is well formed and collectors are keyed by
    /// distinct hashes.
    pub open spec fn wf(&self) -> bool {
        &&& self.peers.wf()
        &&& distinct_keys(self.justification_collector@)
        &&& forall|i: int|
            0 <= i < self.delayed_justifications@.len() ==> (
            #[trigger] self.delayed_justifications@[i]).0 < MAX_DELAYED_JUSTIFICATIONS
    }

    /// Everything but the peer registry is as in `other`.
    pub open spec fn same_but_peers(&self, other: &BadgerStateMachine) -> bool {
        &&& self.phase == other.phase
        &&& self.set_id == other.set_id
        &&& self.authorities@ == other.authorities@
        &&& self.self_id == other.self_id
        &&& self.my_auth_id == other.my_auth_id
        &&& self.my_peer_id == other.my_peer_id
        &&& self.queued_transactions@ == other.queued_transactions@
        &&& self.justification_collector@ == other.justification_collector@
        &&& self.delayed_justifications@ == other.delayed_justifications@
        &&& self.sync_validators@ == other.sync_validators@
        &&& self.queued_block == other.queued_block
    }

    /// Everything but the waiting messages is as in `other`.
    pub open spec fn same_but_queue(&self, other: &BadgerStateMachine) -> bool {
        &&& self.same_but_peers(other)
        &&& self.peers == other.peers
    }

    /// Everything but the sync reports is as in `other`.
    pub open spec fn same_but_reports(&self, other: &BadgerStateMachine) -> bool {
        &&& self.phase == other.phase
        &&& self.set_id == other.set_id
        &&& self.authorities@ == other.authorities@
        &&& self.self_id == other.self_id
        &&& self.my_auth_id == other.my_auth_id
        &&& self.my_peer_id == other.my_peer_id
        &&& self.peers == other.peers
        &&& self.queued_transactions@ == other.queued_transactions@
        &&& self.justification_collector@ == other.justification_collector@
        &&& self.delayed_justifications@ == other.delayed_justifications@
        &&& self.queued_block == other.queued_block
    }

    /// Everything but the justification stores is as in `other`.
    /// Everything but the authority set (its id and members) is as in
    /// `other`.
    pub open spec fn same_but_authority_set(&self, other: &BadgerStateMachine) -> bool {
        &&& self.phase == other.phase
        &&& self.self_id == other.self_id
        &&& self.my_auth_id == other.my_auth_id
        &&& self.my_peer_id == other.my_peer_id
        &&& self.peers == other.peers
        &&& self.queued_transactions@ == other.queued_transactions@
        &&& self.justification_collector@ == other.justification_collector@
        &&& self.delayed_justifications@ == other.delayed_justifications@
        &&& self.sync_validators@ == other.sync_validators@
        &&& self.queued_block == other.queued_block
        &&& self.queued_messages@ == other.queued_messages@
    }

    /// Everything but the phase and the waiting transactions is as in
    /// `other`.
    pub open spec fn same_but_phase(&self, other: &BadgerStateMachine) -> bool {
        &&& self.set_id == other.set_id
        &&& self.authorities@ == other.authorities@
        &&& self.self_id == other.self_id
        &&& self.my_auth_id == other.my_auth_id
        &&& self.my_peer_id == other.my_peer_id
        &&& self.peers == other.peers
        &&& self.justification_collector@ == other.justification_collector@
        &&& self.delayed_justifications@ == other.delayed_justifications@
        &&& self.sync_validators@ == other.sync_validators@
        &&& self.queued_block == other.queued_block
        &&& self.queued_messages@ == other.queued_messages@
    }

    pub open spec fn same_but_justifications(&self, other: &BadgerStateMachine) -> bool {
        &&& self.phase == other.phase
        &&& self.set_id == other.set_id
        &&& self.authorities@ == other.authorities@
        &&& self.self_id == other.self_id
        &&& self.my_auth_id == other.my_auth_id
        &&& self.my_peer_id == other.my_peer_id
        &&& self.peers == other.peers
        &&& self.queued_transactions@ == other.queued_transactions@
        &&& self.sync_validators@ == other.sync_validators@
        &&& self.queued_block == other.queued_block
    }

    /// A node of authority set `set_id` with these authorities, whose
    /// authority key is `self_id` and whose network peer is `my_peer_id`:
    /// it awaits the validators and holds nothing yet.
    pub fn new(set_id: u64, authorities: Vec<u64>, self_id: u64, my_peer_id: u64) -> (r: BadgerStateMachine)
        ensures
            r.wf(),
            r.phase == BadgerState::AwaitingValidators,
            r.set_id == set_id,
            r.authorities@ == authorities@,
            r.self_id == self_id,
            r.my_auth_id == self_id,
            r.my_peer_id == my_peer_id,
            r.peers.inner@.len() == 0,
            r.peers.inverse@.len() == 0,
            r.queued_transactions@.len() == 0,
            r.justification_collector@.len() == 0,
            r.delayed_justifications@.len() == 0,
            r.sync_validators@.len() == 0,
            r.queued_block is None,
            r.queued_messages@.len() == 0,
    {
        BadgerStateMachine {
            phase: BadgerState::AwaitingValidators,
            set_id,
            authorities,
            self_id,
            my_auth_id: self_id,
            my_peer_id,
            peers: Peers::new(),
            queued_transactions: Vec::new(),
            justification_collector: Vec::new(),
            delayed_justifications: Vec::new(),
            sync_validators: Vec::new(),
            queued_block: None,
            queued_messages: Vec::new(),
        }
    }

    /// Whether we are one of the current authorities.
    pub fn is_authority_exec(&self) -> (r: bool)
        ensures
            r == self.is_authority(),
    {
        contains_id(&self.authorities, self.self_id)
    }

    /// Counts the authorities known by session key, ourselves included.
    fn count_known_validators(&self) -> (r: usize)
        requires
            self.peers.wf(),
            self.authorities@.len() < usize::MAX,
        ensures
            r == count_announced(self.authorities@, self.peers) + if self.is_authority()
                && self.peers.peer_of(self.self_id) is None {
                1nat
            } else {
                0nat
            },
    {
        let mut cur: usize = 0;
        let mut i: usize = 0;
        while i < self.authorities.len()
            invariant
                self.peers.wf(),
                self.authorities@.len() < usize::MAX,
                0 <= i <= self.authorities@.len(),
                cur == count_announced(self.authorities@.take(i as int), self.peers),
                cur <= i,
            decreases self.authorities@.len() - i,
        {
            proof {
                assert(self.authorities@.take(i + 1).drop_last() =~= self.authorities@.take(
                    i as int,
                ));
                assert(self.authorities@.take(i + 1).last() == self.authorities@[i as int]);
            }
            if self.peers.badgerid_to_peerid(self.authorities[i]).is_some() {
                cur = cur + 1;
            }
            i = i + 1;
        }
        proof {
            assert(self.authorities@.take(i as int) =~= self.authorities@);
        }
        if self.is_authority_exec() && self.peers.badgerid_to_peerid(self.self_id).is_none() {
            cur = cur + 1;
        }
        cur
    }

    /// A session announcement: in the current set the announcing peer's key
    /// is recorded and, while awaiting validators, key generation starts once
    /// every authority is known.
    pub fn on_session(&mut self, ses_id: u64, session_key: u64, peer_id: u64) -> (r: Decision)
        requires
            old(self).wf(),
            old(self).authorities@.len() < usize::MAX,
        ensures
            final(self).wf(),
            final(self).queued_messages@ == old(self).queued_messages@,
            session_handled(*old(self), ses_id, session_key, peer_id, *final(self), r),
            ses_id != old(self).set_id ==> *final(self) == *old(self),
    {
        let (verdict, again) = session_verdict(ses_id, self.set_id);
        if ses_id != self.set_id {
            return Decision { result: verdict, repropagate: again, next: FollowUp::Nothing };
        }
        self.peers.update_id(peer_id, session_key);
        let mut next = FollowUp::Nothing;
        if self.phase == BadgerState::AwaitingValidators {
            let ln = self.authorities.len();
            proof {
                lemma_count_announced_bound(self.authorities@, self.peers);
            }
            let cur = self.count_known_validators();
            if cur == ln {
                next = FollowUp::ProceedToKeygen;
            }
        }
        Decision { result: ValidationResult::Discard, repropagate: false, next }
    }

    /// A sync report: recorded while waiting, acted upon in initial sync, and
    /// used by observers to finalize the queued block.
    pub fn on_sync(
        &mut self,
        sync: &BadgerSyncGossip,
        signature_valid: bool,
        justification_valid: bool,
        our_best: u64,
    ) -> (r: Decision)
        requires
            old(self).wf(),
            old(self).phase == BadgerState::Badger && !old(self).is_authority() && sync_window(
                sync.data.num,
                our_best,
            ) && justification_valid ==> old(self).authorities@.len() > 0,
        ensures
            final(self).wf(),
            final(self).same_but_reports(old(self)),
            final(self).queued_messages@ == old(self).queued_messages@,
            old(self).phase == BadgerState::KeyGen ==> *final(self) == *old(self),
            (old(self).phase == BadgerState::AwaitingValidators || old(self).phase
                == BadgerState::AwaitingJoinPlan || old(self).phase == BadgerState::InitialSync)
                ==> final(self).sync_validators@ == reports_after_sync(
                old(self).sync_validators@,
                old(self).authorities@,
                *sync,
                signature_valid,
                justification_valid,
                our_best,
            ),
            !(old(self).phase == BadgerState::AwaitingValidators || old(self).phase
                == BadgerState::AwaitingJoinPlan || old(self).phase == BadgerState::InitialSync)
                ==> final(self).sync_validators@ == old(self).sync_validators@,
            r == sync_decision(
                *old(self),
                *sync,
                justification_valid,
                our_best,
                sync_complete(final(self).sync_validators@, our_best, old(self).authorities@.len()),
            ),
    {
        match self.phase {
            BadgerState::AwaitingValidators | BadgerState::AwaitingJoinPlan => {
                process_sync_message(
                    &mut self.sync_validators,
                    &self.authorities,
                    sync,
                    signature_valid,
                    justification_valid,
                    our_best,
                );
                Decision { result: ValidationResult::Discard, repropagate: false, next: FollowUp::Nothing }
            },
            BadgerState::InitialSync => {
                let complete = process_sync_message(
                    &mut self.sync_validators,
                    &self.authorities,
                    sync,
                    signature_valid,
                    justification_valid,
                    our_best,
                );
                Decision {
                    result: ValidationResult::Discard,
                    repropagate: false,
                    next: if complete {
                        FollowUp::ProceedToKeygen
                    } else {
                        FollowUp::Nothing
                    },
                }
            },
            BadgerState::KeyGen => Decision {
                result: ValidationResult::Discard,
                repropagate: true,
                next: FollowUp::Nothing,
            },
            BadgerState::Badger => {
                let mut next = FollowUp::Nothing;
                if !self.is_authority_exec() {
                    if verify_full_justification(
                        &sync.data,
                        our_best,
                        justification_valid,
                        &self.authorities,
                    ) {
                        match self.queued_block {
                            Some(h) => {
                                if h == sync.data.justification.hash {
                                    next = FollowUp::PreFinalize(h);
                                }
                            },
                            None => {},
                        }
                    }
                }
                Decision { result: ValidationResult::Discard, repropagate: false, next }
            },
        }
    }

    /// The peer a payload from `originator` is attributed to.
    fn resolve_originator(&self, originator: u64) -> (r: Option<u64>)
        requires
            self.peers.wf(),
        ensures
            r == originator_peer(*self, originator),
    {
        match self.peers.badgerid_to_peerid(originator) {
            Some(p) => Some(p),
            None => if originator == self.my_auth_id {
                Some(self.my_peer_id)
            } else {
                None
            },
        }
    }

    /// Key-generation data: handed to key generation while it runs.
    pub fn on_keygen_data(&self, originator: u64, decoded: bool) -> (r: Decision)
        requires
            self.wf(),
        ensures
            r == keygen_decision(*self, originator, decoded),
    {
        match self.resolve_originator(originator) {
            None => Decision { result: ValidationResult::Discard, repropagate: true, next: FollowUp::Nothing },
            Some(p) => {
                if self.phase == BadgerState::KeyGen {
                    if decoded {
                        Decision {
                            result: ValidationResult::Discard,
                            repropagate: false,
                            next: FollowUp::ProcessKeygen(p),
                        }
                    } else {
                        Decision {
                            result: ValidationResult::Punish(-2i32),
                            repropagate: false,
                            next: FollowUp::Nothing,
                        }
                    }
                } else if self.phase == BadgerState::AwaitingValidators {
                    Decision { result: ValidationResult::Discard, repropagate: true, next: FollowUp::Nothing }
                } else {
                    Decision { result: ValidationResult::Discard, repropagate: false, next: FollowUp::Nothing }
                }
            },
        }
    }

    /// Consensus data: handed to consensus while it runs.
    pub fn on_badger_data(&self, originator: u64, decoded: bool) -> (r: Decision)
        requires
            self.wf(),
        ensures
            r == badger_decision(*self, originator, decoded),
    {
        match self.resolve_originator(originator) {
            None => Decision { result: ValidationResult::Discard, repropagate: true, next: FollowUp::Nothing },
            Some(p) => match self.phase {
                BadgerState::Badger => Decision {
                    result: ValidationResult::Discard,
                    repropagate: false,
                    next: if decoded {
                        FollowUp::HandleBadger(p)
                    } else {
                        FollowUp::Nothing
                    },
                },
                BadgerState::KeyGen | BadgerState::AwaitingValidators => Decision {
                    result: ValidationResult::Discard,
                    repropagate: true,
                    next: FollowUp::Nothing,
                },
                _ => Decision {
                    result: ValidationResult::Punish(-1i32),
                    repropagate: false,
                    next: FollowUp::Nothing,
                },
            },
        }
    }

    fn index_of_collector(&self, hash: u64) -> (r: Option<usize>)
        requires
            distinct_keys(self.justification_collector@),
        ensures
            match r {
                Some(i) => i < self.justification_collector@.len()
                    && self.justification_collector@[i as int].0 == hash && self.collector(hash)
                    == Some(self.justification_collector@[i as int].1),
                None => self.collector(hash) is None,
            },
    {
        let mut i: usize = 0;
        while i < self.justification_collector.len()
            invariant
                distinct_keys(self.justification_collector@),
                0 <= i <= self.justification_collector@.len(),
                forall|j: int| 0 <= j < i ==> self.justification_collector@[j].0 != hash,
            decreases self.justification_collector@.len() - i,
        {
            if self.justification_collector[i].0 == hash {
                proof {
                    lemma_find_at(self.justification_collector@, i as int);
                }
                return Some(i);
            }
            i = i + 1;
        }
        proof {
            lemma_find_absent(self.justification_collector@, hash);
        }
        None
    }

    /// A justification: collected for its block if a collector exists,
    /// otherwise held back until the block is produced.
    pub fn on_justification(
        &mut self,
        just: BadgerJustification,
        signature_valid: bool,
        header_number: Option<u64>,
        finalized_number: u64,
    ) -> (r: Decision)
        requires
            old(self).wf(),
        ensures
            final(self).wf(),
            final(self).queued_messages@ == old(self).queued_messages@,
            !r.repropagate,
            justification_handled(
                *old(self),
                just,
                signature_valid,
                header_number,
                finalized_number,
                *final(self),
                r,
            ),
    {
        if !signature_valid {
            return Decision { result: ValidationResult::Punish(-8i32), repropagate: false, next: FollowUp::Nothing };
        }
        if !self.is_authority_exec() {
            return Decision { result: ValidationResult::Discard, repropagate: false, next: FollowUp::Nothing };
        }
        match header_number {
            Some(n) => {
                if n <= finalized_number {
                    return Decision {
                        result: ValidationResult::Discard,
                        repropagate: false,
                        next: FollowUp::Nothing,
                    };
                }
            },
            None => {},
        }
        let hkey = just.hash;
        match self.index_of_collector(hkey) {
            Some(i) => {
                let ghost before = self.justification_collector@;
                let (h, mut c) = self.justification_collector.remove(i);
                process_justification(just, &mut c);
                let ghost c2 = c;
                self.justification_collector.insert(i, (h, c));
                proof {
                    assert(self.justification_collector@ =~= before.update(i as int, (h, c2)));
                    lemma_set_at(before, i as int, c2);
                }
                Decision {
                    result: ValidationResult::Discard,
                    repropagate: false,
                    next: FollowUp::CheckJustification(hkey),
                }
            },
            None => {
                record_delayed_justification(&mut self.delayed_justifications, just);
                Decision { result: ValidationResult::Discard, repropagate: false, next: FollowUp::Nothing }
            },
        }
    }

    /// Checks whether the justifications collected for block `hkey` reach the
    /// quorum of its authorities. If so, they are drained into the full
    /// justification that is returned, to finalize the block with, and the
    /// delayed justifications age by one block.
    pub fn check_justification_completion(&mut self, hkey: u64) -> (r: Option<BadgerFullJustification>)
        requires
            old(self).wf(),
            old(self).is_authority() && old(self).collector(hkey) is Some ==> {
                &&& old(self).collector(hkey).unwrap().contemp_auth is Some
                &&& old(self).collector(hkey).unwrap().contemp_auth.unwrap()@.len() > 0
            },
        ensures
            final(self).wf(),
            final(self).same_but_justifications(old(self)),
            final(self).queued_messages@ == old(self).queued_messages@,
            r is Some <==> (old(self).is_authority() && old(self).collector(hkey) is Some
                && old(self).collector(hkey).unwrap().justification@.len() >= quorum(
                old(self).collector(hkey).unwrap().contemp_auth.unwrap()@.len(),
            )),
            r is None ==> {
                &&& final(self).justification_collector@ == old(self).justification_collector@
                &&& final(self).delayed_justifications@ == old(self).delayed_justifications@
            },
            r is Some ==> {
                let c = old(self).collector(hkey).unwrap();
                &&& r.unwrap().hash == c.justification@[0].hash
                &&& r.unwrap().commits@ == commits_of(c.justification@)
                &&& forall|h: u64| #[trigger]
                    final(self).collector(h) == if h == hkey {
                        Some(
                            JustificationCollector {
                                contemp_auth: c.contemp_auth,
                                justification: final(self).collector(h).unwrap().justification,
                            },
                        )
                    } else {
                        old(self).collector(h)
                    }
                &&& final(self).collector(hkey).unwrap().justification@.len() == 0
                &&& final(self).delayed_justifications@ == aged(old(self).delayed_justifications@)
            },
    {
        if !self.is_authority_exec() {
            return None;
        }
        let i = match self.index_of_collector(hkey) {
            Some(i) => i,
            None => {
                return None;
            },
        };
        let authn = match &self.justification_collector[i].1.contemp_auth {
            Some(a) => a.len(),
            None => {
                return None;
            },
        };
        let collected = self.justification_collector[i].1.justification.len();
        if !justification_complete(authn, collected) {
            return None;
        }
        let ghost before = self.justification_collector@;
        let (h, mut c) = self.justification_collector.remove(i);
        let hash = c.justification[0].hash;
        let commits = drain_commits(&mut c.justification);
        let ghost c2 = c;
        self.justification_collector.insert(i, (h, c));
        proof {
            assert(self.justification_collector@ =~= before.update(i as int, (h, c2)));
            lemma_set_at(before, i as int, c2);
        }
        proof {
            assert forall|j: int| 0 <= j < self.delayed_justifications@.len() implies (
            #[trigger] self.delayed_justifications@[j]).0 < u64::MAX by {}
        }
        age_delayed_justifications(&mut self.delayed_justifications);
        proof {
            lemma_aged_bounded(old(self).delayed_justifications@);
        }
        Some(BadgerFullJustification { hash, commits })
    }

    /// Starts collecting the justifications of block `hkey` with our own
    /// justification `own`: the block's collector is made with authorities
    /// `auth_list` unless it exists, the justifications held back for the
    /// block `own` names are offered to it in order, then `own`. Returns
    /// whether `own` is to be sent out, which it is when we are an
    /// authority, or `None` when the existing collector knows no authorities
    /// and nothing is done.
    pub fn initiate_block_justification(&mut self, hkey: u64, own: BadgerJustification, auth_list: Vec<u64>) -> (r:
        Option<bool>)
        requires
            old(self).wf(),
        ensures
            final(self).wf(),
            final(self).same_but_justifications(old(self)),
            final(self).queued_messages@ == old(self).queued_messages@,
            (old(self).collector(hkey) matches Some(c) && c.contemp_auth is None) <==> r is None,
            r is None ==> {
                &&& final(self).justification_collector@ == old(self).justification_collector@
                &&& final(self).delayed_justifications@ == old(self).delayed_justifications@
            },
            r is Some ==> {
                let auth = match old(self).collector(hkey) {
                    Some(c) => c.contemp_auth.unwrap()@,
                    None => auth_list@,
                };
                let base = match old(self).collector(hkey) {
                    Some(c) => c.justification@,
                    None => Seq::<BadgerJustification>::empty(),
                };
                &&& r == Some(old(self).is_authority())
                &&& final(self).collector(hkey) is Some
                &&& final(self).collector(hkey).unwrap().contemp_auth == match old(self).collector(hkey) {
                    Some(c) => c.contemp_auth,
                    None => Some(auth_list),
                }
                &&& final(self).collector(hkey).unwrap().justification@ == admit_all(
                    auth,
                    base,
                    delayed_for(old(self).delayed_justifications@, own.hash).push(own),
                )
                &&& forall|h: u64| h != hkey ==> #[trigger] final(self).collector(h) == old(self).collector(h)
                &&& final(self).delayed_justifications@ == delayed_other(
                    old(self).delayed_justifications@,
                    own.hash,
                )
            },
    {
        let idx = match self.index_of_collector(hkey) {
            Some(i) => {
                if self.justification_collector[i].1.contemp_auth.is_none() {
                    return None;
                }
                i
            },
            None => {
                let ghost before = self.justification_collector@;
                let fresh = JustificationCollector { contemp_auth: Some(auth_list), justification: Vec::new() };
                let ghost fresh_v = fresh;
                self.justification_collector.push((hkey, fresh));
                proof {
                    assert forall|i: int| 0 <= i < before.len() implies before[i].0 != hkey by {
                        if before[i].0 == hkey {
                            lemma_find_at(before, i);
                        }
                    }
                    lemma_push_new(before, hkey, fresh_v);
                    lemma_find_at(self.justification_collector@, before.len() as int);
                }
                self.justification_collector.len() - 1
            },
        };
        let ghost mid = self.justification_collector@;
        let ghost c0 = mid[idx as int].1;
        assert(self.collector(hkey) == Some(c0));
        let (h, mut c) = self.justification_collector.remove(idx);
        let ghost auth = c.contemp_auth.unwrap()@;
        let ghost orig = self.delayed_justifications@;
        let mut delayed: Vec<(u64, BadgerJustification)> = Vec::new();
        core::mem::swap(&mut delayed, &mut self.delayed_justifications);
        let mut remaining: Vec<(u64, BadgerJustification)> = Vec::new();
        let ghost mut k: int = 0;
        while delayed.len() > 0
            invariant
                0 <= k <= orig.len(),
                delayed@ == orig.skip(k),
                c.contemp_auth == c0.contemp_auth,
                c.contemp_auth is Some,
                auth == c.contemp_auth.unwrap()@,
                c.justification@ == admit_all(auth, c0.justification@, delayed_for(orig.take(k), own.hash)),
                remaining@ == delayed_other(orig.take(k), own.hash),
                forall|i: int| 0 <= i < orig.len() ==> (#[trigger] orig[i]).0 < MAX_DELAYED_JUSTIFICATIONS,
                forall|i: int|
                    0 <= i < remaining@.len() ==> (#[trigger] remaining@[i]).0 < MAX_DELAYED_JUSTIFICATIONS,
            decreases delayed@.len(),
        {
            let ghost rest = delayed@;
            let (age, j) = delayed.remove(0);
            proof {
                assert(orig.take(k + 1).drop_last() =~= orig.take(k));
                assert(orig.take(k + 1).last() == orig[k]);
                assert(orig[k] == rest[0]);
            }
            if j.hash == own.hash {
                let ghost x = delayed_for(orig.take(k), own.hash);
                proof {
                    assert(x.push(j).drop_last() =~= x);
                }
                process_justification(j, &mut c);
            } else {
                remaining.push((age, j));
            }
            proof {
                k = k + 1;
                assert(delayed@ =~= orig.skip(k));
            }
        }
        proof {
            assert(orig.take(k) =~= orig);
        }
        self.delayed_justifications = remaining;
        let ghost offered = delayed_for(orig, own.hash);
        let ghost before_own = c.justification@;
        process_justification(own, &mut c);
        proof {
            assert(offered.push(own).drop_last() =~= offered);
        }
        let ghost c2 = c;
        self.justification_collector.insert(idx, (h, c));
        proof {
            assert(self.justification_collector@ =~= mid.update(idx as int, (h, c2)));
            lemma_set_at(mid, idx as int, c2);
        }
        Some(self.is_authority_exec())
    }

    /// Drops the collector of block `hkey` once its justification is
    /// complete.
    pub fn remove_collector(&mut self, hkey: u64)
        requires
            old(self).wf(),
        ensures
            final(self).wf(),
            final(self).same_but_justifications(old(self)),
            final(self).queued_messages@ == old(self).queued_messages@,
            final(self).delayed_justifications@ == old(self).delayed_justifications@,
            forall|h: u64| #[trigger] final(self).collector(h) == if h == hkey {
                None
            } else {
                old(self).collector(h)
            },
    {
        match self.index_of_collector(hkey) {
            Some(i) => {
                let ghost before = self.justification_collector@;
                self.justification_collector.remove(i);
                proof {
                    lemma_remove_at(before, i as int);
                }
            },
            None => {},
        }
    }

    /// The validator set to vote for, as consensus takes it: each authority
    /// of `auths` under the peer that announced it, in peer order. Refused
    /// where an authority has no known peer, or else where consensus is not
    /// running.
    pub fn vote_for_validators(&self, auths: &Vec<u64>) -> (r: Result<Vec<(u64, u64)>, VoteError>)
        requires
            self.wf(),
        ensures
            r matches Err(e) ==> e == if exists|i: int|
                0 <= i < auths@.len() && self.peers.peer_of(#[trigger] auths@[i]) is None {
                VoteError::MissingNodeId
            } else {
                VoteError::InvalidState
            },
            r is Ok <==> (forall|i: int|
                0 <= i < auths@.len() ==> self.peers.peer_of(#[trigger] auths@[i]) is Some)
                && self.phase == BadgerState::Badger,
            r matches Ok(m) ==> {
                &&& increasing(m@)
                &&& forall|p: u64| #[trigger] find_opt(m@, p) == voted_for(self.peers, auths@, p)
            },
    {
        let mut m: Vec<(u64, u64)> = Vec::new();
        proof {
            assert forall|p: u64| #[trigger] find_opt(m@, p) == voted_for(self.peers, auths@.take(0), p) by {
                lemma_find_absent(m@, p);
            }
        }
        let mut i: usize = 0;
        while i < auths.len()
            invariant
                self.wf(),
                0 <= i <= auths@.len(),
                increasing(m@),
                forall|j: int| 0 <= j < i ==> self.peers.peer_of(#[trigger] auths@[j]) is Some,
                forall|p: u64| #[trigger] find_opt(m@, p) == voted_for(self.peers, auths@.take(i as int), p),
            decreases auths@.len() - i,
        {
            proof {
                assert(auths@.take(i + 1).drop_last() =~= auths@.take(i as int));
                assert(auths@.take(i + 1).last() == auths@[i as int]);
            }
            match self.peers.badgerid_to_peerid(auths[i]) {
                Some(p) => {
                    upsert_sorted(&mut m, p, auths[i]);
                },
                None => {
                    return Err(VoteError::MissingNodeId);
                },
            }
            i = i + 1;
        }
        proof {
            assert(auths@.take(i as int) =~= auths@);
        }
        if self.phase != BadgerState::Badger {
            return Err(VoteError::InvalidState);
        }
        Ok(m)
    }

    /// Moves to the next authority set once consensus completed a change of
    /// validators: `new_validators` are (node, authority key) pairs in
    /// ascending node order, each node once, and the new members are their
    /// keys in that order. Outside the consensus phase nothing changes. The
    /// session announcement for the new set is returned; the new key set is
    /// held by the consensus node, and keeping the keys and the set on disk
    /// is left to the caller.
    pub fn update_validators(&mut self, new_validators: &Vec<(u64, u64)>) -> (r: Option<GossipMessage>)
        requires
            old(self).wf(),
            increasing(new_validators@),
            old(self).set_id < u64::MAX,
        ensures
            final(self).wf(),
            final(self).same_but_authority_set(old(self)),
            old(self).phase != BadgerState::Badger ==> {
                &&& r is None
                &&& final(self).set_id == old(self).set_id
                &&& final(self).authorities@ == old(self).authorities@
            },
            old(self).phase == BadgerState::Badger ==> {
                &&& r == Some(GossipMessage::Session {
                    ses_id: (old(self).set_id + 1) as u64,
                    session_key: old(self).my_auth_id,
                    peer_id: old(self).my_peer_id,
                })
                &&& final(self).set_id == old(self).set_id + 1
                &&& final(self).authorities@ == authority_keys(new_validators@)
            },
    {
        if self.phase != BadgerState::Badger {
            return None;
        }
        let mut keys: Vec<u64> = Vec::new();
        let mut i: usize = 0;
        while i < new_validators.len()
            invariant
                0 <= i <= new_validators@.len(),
                keys@ == authority_keys(new_validators@.take(i as int)),
            decreases new_validators@.len() - i,
        {
            proof {
                assert(new_validators@.take(i + 1).drop_last() =~= new_validators@.take(i as int));
            }
            keys.push(new_validators[i].1);
            i = i + 1;
        }
        proof {
            assert(new_validators@.take(i as int) =~= new_validators@);
        }
        self.authorities = keys;
        self.set_id = self.set_id + 1;
        Some(GossipMessage::Session {
            ses_id: self.set_id,
            session_key: self.my_auth_id,
            peer_id: self.my_peer_id,
        })
    }

    /// Takes a transaction: consensus gets it while it runs (returned as
    /// `Some`), otherwise it waits in the bounded queue.
    pub fn push_transaction(&mut self, tx: Vec<u8>) -> (r: Result<Option<Vec<u8>>, QueueError>)
        requires
            old(self).wf(),
        ensures
            final(self).wf(),
            final(self).same_but_phase(old(self)),
            final(self).phase == old(self).phase,
            old(self).phase == BadgerState::Badger ==> {
                &&& r matches Ok(Some(t)) && t@ == tx@
                &&& final(self).queued_transactions@ == old(self).queued_transactions@
            },
            old(self).phase != BadgerState::Badger ==> {
                &&& r is Ok <==> queue_has_room(old(self).queued_transactions@.len())
                &&& r is Ok ==> r == Ok::<Option<Vec<u8>>, QueueError>(None)
                    && final(self).queued_transactions@ == old(self).queued_transactions@.push(tx)
                &&& r is Err ==> final(self).queued_transactions@ == old(self).queued_transactions@
            },
    {
        if self.phase == BadgerState::Badger {
            return Ok(Some(tx));
        }
        match queue_transaction(&mut self.queued_transactions, tx) {
            Ok(()) => Ok(None),
            Err(e) => Err(e),
        }
    }

    /// Enters the consensus phase once the keys are in place; the
    /// transactions that waited are returned, in the order they came, for
    /// consensus to take.
    pub fn proceed_to_badger(&mut self) -> (r: Vec<Vec<u8>>)
        requires
            old(self).wf(),
        ensures
            final(self).wf(),
            final(self).same_but_phase(old(self)),
            final(self).phase == BadgerState::Badger,
            r@ == old(self).queued_transactions@,
            final(self).queued_transactions@.len() == 0,
    {
        self.phase = BadgerState::Badger;
        let mut drained: Vec<Vec<u8>> = Vec::new();
        std::mem::swap(&mut drained, &mut self.queued_transactions);
        drained
    }

    /// Enters the initial sync: the sync report to sign and gossip names
    /// our best block `best_number` and its full justification, which the
    /// genesis block, alone, may lack.
    pub fn proceed_to_sync(
        &mut self,
        best_number: u64,
        best_hash: u64,
        justification: Option<BadgerFullJustification>,
    ) -> (r: BadgerSyncData)
        requires
            old(self).wf(),
            justification is Some || best_number == 0,
        ensures
            final(self).wf(),
            final(self).same_but_phase(old(self)),
            final(self).queued_transactions@ == old(self).queued_transactions@,
            final(self).phase == BadgerState::InitialSync,
            r.num == best_number,
            match justification {
                Some(j) => r.justification == j,
                None => r.justification.hash == best_hash && r.justification.commits@.len() == 0,
            },
    {
        self.phase = BadgerState::InitialSync;
        let justification = match justification {
            Some(j) => j,
            None => BadgerFullJustification { hash: best_hash, commits: Vec::new() },
        };
        BadgerSyncData { num: best_number, justification }
    }

    /// Whether deciding on `message` counts a quorum of the authorities.
    pub fn needs_authorities_exec(&self, message: &GossipMessage) -> (r: bool)
        ensures
            r == needs_authorities(*self, *message),
    {
        match message {
            GossipMessage::SyncGossip { sync, justification_valid, our_best, .. } => {
                let n = sync.data.num;
                let b = *our_best;
                self.phase == BadgerState::Badger && !contains_id(&self.authorities, self.self_id)
                    && (n <= b || n - b <= 1) && (b <= n || b - n <= 1) && *justification_valid
            },
            _ => false,
        }
    }

    /// Enters genesis key generation among the nodes of `pub_keys` (each
    /// node's peer with its public key), with our secret key `sec_key` and
    /// randomness from `rng`: the tolerated number of faulty nodes among the
    /// authorities is the threshold, our part (if we are among the nodes)
    /// is handled at once, and the messages to gossip to every peer are
    /// returned with the key generation's state. Where `SyncKeyGen::new`
    /// fails, nothing changes.
    pub fn proceed_to_keygen(
        &mut self,
        sec_key: hbbft::crypto::SecretKey,
        pub_keys: Vec<(u64, hbbft::crypto::PublicKey)>,
        is_observer: bool,
        rng: &mut rand::rngs::OsRng,
    ) -> (r: Option<(KeyGenState, Vec<SyncKeyGenMessage>)>)
        requires
            old(self).wf(),
            old(self).authorities@.len() > 0,
        ensures
            final(self).wf(),
            final(self).same_but_phase(old(self)),
            final(self).queued_transactions@ == old(self).queued_transactions@,
            r is None ==> final(self).phase == old(self).phase,
            r matches Some(x) ==> {
                &&& final(self).phase == BadgerState::KeyGen
                &&& x.0.threshold == (old(self).authorities@.len() - 1) / 3
                &&& x.0.is_observer == is_observer
                &&& (x.1@.len() > 0 <==> exists|i: int|
                    0 <= i < pub_keys@.len() && #[trigger] pub_keys@[i].0 == old(self).my_peer_id)
                &&& x.1@.len() > 0 ==> x.1@.last() is Part
                &&& forall|i: int| 0 <= i < x.1@.len() - 1 ==> ack_source(#[trigger] x.1@[i]) is Some
            },
    {
        let threshold = hbbft::util::max_faulty(self.authorities.len());
        let mut members: Vec<u64> = Vec::new();
        let mut i: usize = 0;
        while i < pub_keys.len()
            invariant
                0 <= i <= pub_keys@.len(),
                members@.len() == i,
            decreases pub_keys@.len() - i,
        {
            members.push(pub_keys[i].0);
            i = i + 1;
        }
        let (keygen, part) = match sync_key_gen_new(self.my_peer_id, sec_key, pub_keys, threshold, rng) {
            Some(x) => x,
            None => {
                return None;
            },
        };
        let mut state = KeyGenState::new(keygen, is_observer, threshold, members);
        let msgs = state.start(self.my_peer_id, part, rng);
        self.phase = BadgerState::KeyGen;
        Some((state, msgs))
    }

    /// Decides on a decoded gossip message, updating the state it touches.
    pub fn process_decoded_message(&mut self, message: GossipMessage) -> (r: Decision)
        requires
            old(self).wf(),
            needs_authorities(*old(self), message) ==> old(self).authorities@.len() > 0,
            old(self).authorities@.len() < usize::MAX,
        ensures
            handled(*old(self), message, *final(self), r),
            final(self).queued_messages@ == old(self).queued_messages@,
            message is JustificationData && delayed_distinct(old(self).delayed_justifications@)
                ==> delayed_distinct(final(self).delayed_justifications@),
            deferral(*old(self), message) matches Some(d) ==> *final(self) == *old(self) && r == d,
            deferral(*old(self), message) is None ==> !r.repropagate,
    {
        match message {
            GossipMessage::Session { ses_id, session_key, peer_id } => self.on_session(
                ses_id,
                session_key,
                peer_id,
            ),
            GossipMessage::SyncGossip { sync, signature_valid, justification_valid, our_best } => {
                self.on_sync(&sync, signature_valid, justification_valid, our_best)
            },
            GossipMessage::KeygenData { originator, decoded } => self.on_keygen_data(
                originator,
                decoded,
            ),
            GossipMessage::BadgerData { originator, decoded } => self.on_badger_data(
                originator,
                decoded,
            ),
            GossipMessage::JustificationData {
                just,
                signature_valid,
                header_number,
                finalized_number,
            } => self.on_justification(just, signature_valid, header_number, finalized_number),
        }
    }

    /// The decision on a message that is too early to handle, or `None`.
    fn deferred(&self, message: &GossipMessage) -> (r: Option<Decision>)
        requires
            self.wf(),
        ensures
            r == deferral(*self, *message),
    {
        match message {
            GossipMessage::Session { ses_id, .. } => {
                if *ses_id != self.set_id {
                    let (verdict, again) = session_verdict(*ses_id, self.set_id);
                    if again {
                        return Some(
                            Decision { result: verdict, repropagate: true, next: FollowUp::Nothing },
                        );
                    }
                }
                None
            },
            GossipMessage::SyncGossip { .. } => {
                if self.phase == BadgerState::KeyGen {
                    Some(
                        Decision {
                            result: ValidationResult::Discard,
                            repropagate: true,
                            next: FollowUp::Nothing,
                        },
                    )
                } else {
                    None
                }
            },
            GossipMessage::KeygenData { originator, decoded } => {
                let d = self.on_keygen_data(*originator, *decoded);
                if d.repropagate {
                    Some(d)
                } else {
                    None
                }
            },
            GossipMessage::BadgerData { originator, decoded } => {
                let d = self.on_badger_data(*originator, *decoded);
                if d.repropagate {
                    Some(d)
                } else {
                    None
                }
            },
            GossipMessage::JustificationData { .. } => None,
        }
    }

    /// Decides on a message from the network. `None` stands for bytes that
    /// did not decode or a signature that did not verify. A message that is
    /// too early is kept; otherwise a replay of the kept messages follows,
    /// which the caller runs with `replay_next`.
    pub fn process_and_replay(&mut self, message: Option<GossipMessage>) -> (r: (
        Decision,
        Option<Replay>,
    ))
        requires
            old(self).wf(),
            message matches Some(msg) ==> (needs_authorities(*old(self), msg) ==> old(
                self,
            ).authorities@.len() > 0),
            old(self).authorities@.len() < usize::MAX,
        ensures
            final(self).wf(),
            final(self).authorities@ == old(self).authorities@,
            message is None ==> {
                &&& r.0 == decision(ValidationResult::Discard, false, FollowUp::Nothing)
                &&& final(self).same_but_queue(old(self))
            },
            message matches Some(msg) ==> (deferral(*old(self), msg) is Some ==> {
                &&& r.0 == deferral(*old(self), msg).unwrap()
                &&& final(self).queued_messages@ == old(self).queued_messages@.push(msg)
                &&& final(self).same_but_queue(old(self))
            }),
            message matches Some(msg) ==> (deferral(*old(self), msg) is None ==> handled(
                *old(self),
                msg,
                *final(self),
                r.0,
            )),
            r.1 is None <==> (message matches Some(msg) && deferral(*old(self), msg) is Some),
            r.1 matches Some(rp) ==> {
                &&& rp.pending@ == old(self).queued_messages@
                &&& rp.kept@.len() == 0
                &&& !rp.progressed
                &&& rp.rounds == 0
                &&& !rp.finished
                &&& replay_consistent(*final(self), rp)
            },
    {
        let ghost m0 = message;
        let first = match message {
            None => Decision {
                result: ValidationResult::Discard,
                repropagate: false,
                next: FollowUp::Nothing,
            },
            Some(msg) => {
                match self.deferred(&msg) {
                    Some(d) => {
                        self.queued_messages.push(msg);
                        return (d, None);
                    },
                    None => self.process_decoded_message(msg),
                }
            },
        };
        let ghost mid = *self;
        let mut pending: Vec<GossipMessage> = Vec::new();
        core::mem::swap(&mut pending, &mut self.queued_messages);
        proof {
            if let Some(msg) = m0 {
                if deferral(*old(self), msg) is None {
                    lemma_handled_ignores_queue(*old(self), msg, mid, *self, first);
                }
            }
        }
        (first, Some(Replay { pending, kept: Vec::new(), progressed: false, rounds: 0, finished: false }))
    }

    /// Runs the replay up to the next message it handles and returns the
    /// decision on it, to be acted upon before the next step; `None` once
    /// the replay has ended, with the messages still too early back in the
    /// queue.
    pub fn replay_next(&mut self, rp: &mut Replay) -> (r: Option<Decision>)
        requires
            old(self).wf(),
            old(self).authorities@.len() > 0 || (forall|k: int|
                0 <= k < old(rp).pending@.len() ==> !needs_authorities(
                    *old(self),
                    #[trigger] old(rp).pending@[k],
                )) && (forall|k: int|
                0 <= k < old(rp).kept@.len() ==> !needs_authorities(
                    *old(self),
                    #[trigger] old(rp).kept@[k],
                )),
            old(self).authorities@.len() < usize::MAX,
            replay_consistent(*old(self), *old(rp)),
        ensures
            final(self).wf(),
            final(self).authorities@ == old(self).authorities@,
            replay_consistent(*final(self), *final(rp)),
            r is None <==> final(rp).finished,
            old(rp).finished ==> r is None && *final(self) == *old(self) && *final(rp) == *old(rp),
            !old(rp).finished ==> (r is Some <==> replay_step(*old(self), *old(rp)) is Some),
            r matches Some(d) ==> {
                &&& !d.repropagate
                &&& final(rp).progressed
                &&& waiting(*final(self), *final(rp)) + 1 == waiting(*old(self), *old(rp))
                &&& replay_step(*old(self), *old(rp)) matches Some(step) && handled(
                    *old(self),
                    step.0,
                    *final(self),
                    d,
                ) && final(rp).pending@ == step.1 && final(rp).kept@ == step.2 && final(rp).rounds
                    == step.3
            },
            r is None ==> {
                &&& waiting(*final(self), *final(rp)) == waiting(*old(self), *old(rp))
                &&& final(rp).pending@.len() == 0
                &&& final(rp).kept@.len() == 0
                &&& !old(rp).finished && final(rp).rounds < MAX_REPLAY_ROUNDS ==> forall|k: int|
                    0 <= k < final(self).queued_messages@.len() ==> deferral(
                        *final(self),
                        #[trigger] final(self).queued_messages@[k],
                    ) is Some
            },
    {
        if rp.finished {
            return None;
        }
        let ghost s0 = *old(self);
        let ghost p0 = old(rp).pending@;
        let ghost k0 = old(rp).kept@;
        let ghost s2 = k0 + p0;
        let ghost mut second: bool = false;
        let ghost mut i0: int = 0;
        proof {
            assert forall|k: int| 0 <= k < s2.len() implies (s2[k] == k0[k] || s2[k] == p0[k
                - k0.len()]) by {}
        }
        loop
            invariant
                self.wf(),
                self.authorities@ == old(self).authorities@,
                self.authorities@.len() > 0 || forall|k: int|
                    0 <= k < s2.len() ==> !needs_authorities(s0, #[trigger] s2[k]),
                self.authorities@.len() < usize::MAX,
                replay_consistent(*self, *rp),
                !rp.finished,
                !old(rp).finished,
                waiting(*self, *rp) == waiting(*old(self), *old(rp)),
                s0 == *old(self),
                p0 == old(rp).pending@,
                k0 == old(rp).kept@,
                s2 == k0 + p0,
                self.same_but_queue(&s0),
                self.queued_messages@.len() == 0,
                s0.queued_messages@.len() == 0,
                forall|x: GossipMessage| #[trigger] deferral(*self, x) == deferral(s0, x),
                !second ==> {
                    &&& 0 <= i0 <= p0.len()
                    &&& rp.pending@ == p0.skip(i0)
                    &&& rp.kept@ == k0 + p0.take(i0)
                    &&& rp.rounds == old(rp).rounds
                    &&& rp.progressed == old(rp).progressed
                    &&& forall|j: int| 0 <= j < i0 ==> deferral(s0, #[trigger] p0[j]) is Some
                },
                second ==> {
                    &&& first_due(s0, p0) is None
                    &&& old(rp).progressed
                    &&& old(rp).rounds + 1 < MAX_REPLAY_ROUNDS
                    &&& rp.rounds == old(rp).rounds + 1
                    &&& !rp.progressed
                    &&& 0 <= i0 <= s2.len()
                    &&& rp.pending@ == s2.skip(i0)
                    &&& rp.kept@ == s2.take(i0)
                    &&& forall|j: int| 0 <= j < i0 ==> deferral(s0, #[trigger] s2[j]) is Some
                },
            decreases MAX_REPLAY_ROUNDS - rp.rounds, rp.pending@.len(),
        {
            if rp.pending.len() == 0 {
                let ghost before = *self;
                proof {
                    if !second {
                        assert(i0 == p0.len());
                        lemma_first_due(s0, p0, i0);
                        assert(p0.take(i0) =~= p0);
                    } else {
                        assert(i0 == s2.len());
                        lemma_first_due(s0, s2, i0);
                    }
                }
                self.queued_messages.append(&mut rp.kept);
                proof {
                    assert forall|k: int| 0 <= k < self.queued_messages@.len() implies deferral(
                        before,
                        #[trigger] self.queued_messages@[k],
                    ) == deferral(*self, self.queued_messages@[k]) by {}
                }
                rp.rounds = rp.rounds + 1;
                if !rp.progressed || rp.rounds >= MAX_REPLAY_ROUNDS {
                    rp.finished = true;
                    return None;
                }
                core::mem::swap(&mut rp.pending, &mut self.queued_messages);
                rp.progressed = false;
                proof {
                    second = true;
                    i0 = 0;
                    assert(rp.pending@ =~= s2.skip(0));
                    assert(rp.kept@ =~= s2.take(0));
                }
            } else {
                let ghost pend = rp.pending@;
                let m = rp.pending.remove(0);
                proof {
                    if !second {
                        assert(pend[0] == p0[i0]);
                        assert(s2[k0.len() + i0] == p0[i0]);
                    } else {
                        assert(pend[0] == s2[i0]);
                    }
                }
                match self.deferred(&m) {
                    Some(_) => {
                        rp.kept.push(m);
                        proof {
                            if !second {
                                assert(rp.pending@ =~= p0.skip(i0 + 1));
                                assert(rp.kept@ =~= k0 + p0.take(i0 + 1));
                            } else {
                                assert(rp.pending@ =~= s2.skip(i0 + 1));
                                assert(rp.kept@ =~= s2.take(i0 + 1));
                            }
                            i0 = i0 + 1;
                        }
                    },
                    None => {
                        let ghost at_call = *self;
                        let d = self.process_decoded_message(m);
                        rp.progressed = true;
                        proof {
                            if !second {
                                lemma_first_due(s0, p0, i0);
                                assert(rp.pending@ =~= p0.skip(i0 + 1));
                            } else {
                                lemma_first_due(s0, s2, i0);
                                assert(rp.pending@ =~= s2.skip(i0 + 1));
                            }
                            assert(at_call.queued_messages@ =~= s0.queued_messages@);
                            lemma_handled_from_same(s0, at_call, m, *self, d);
                        }
                        return Some(d);
                    },
                }
            }
        }
    }
}

/// The commits made of a list of justifications.
pub open spec fn commits_of(js: Seq<BadgerJustification>) -> Seq<BadgerAuthCommit> {
    js.map_values(|j: BadgerJustification| BadgerAuthCommit { validator: j.validator, sgn: j.sgn })
}

/// Moves the justifications into commits, leaving the list empty.
fn drain_commits(js: &mut Vec<BadgerJustification>) -> (r: Vec<BadgerAuthCommit>)
    ensures
        r@ == commits_of(old(js)@),
        final(js)@.len() == 0,
{
    let ghost orig = js@;
    let mut out: Vec<BadgerAuthCommit> = Vec::new();
    let ghost mut k: int = 0;
    while js.len() > 0
        invariant
            0 <= k <= orig.len(),
            js@ == orig.skip(k),
            out@ == commits_of(orig.take(k)),
        decreases js@.len(),
    {
        let ghost rest = js@;
        let j = js.remove(0);
        proof {
            assert(rest[0] == orig[k]);
            assert(js@ =~= orig.skip(k + 1));
        }
        out.push(BadgerAuthCommit { validator: j.validator, sgn: j.sgn });
        proof {
            assert(commits_of(orig.take(k + 1)) =~= commits_of(orig.take(k)).push(
                BadgerAuthCommit { validator: orig[k].validator, sgn: orig[k].sgn },
            ));
            k = k + 1;
        }
    }
    proof {
        assert(orig.take(k) =~= orig);
    }
    out
}

/// Aged justifications stay below the age limit.
proof fn lemma_aged_bounded(s: Seq<(u64, BadgerJustification)>)
    ensures
        forall|i: int| 0 <= i < aged(s).len() ==> (#[trigger] aged(s)[i]).0
            < MAX_DELAYED_JUSTIFICATIONS,
    decreases s.len(),
{
    if s.len() > 0 {
        lemma_aged_bounded(s.drop_last());
        let r = aged(s.drop_last());
        assert forall|i: int| 0 <= i < aged(s).len() implies (#[trigger] aged(s)[i]).0
            < MAX_DELAYED_JUSTIFICATIONS by {
            if i < r.len() {
                assert(aged(s)[i] == r[i]);
            }
        }
    }
}

proof fn lemma_count_announced_bound(auths: Seq<u64>, peers: Peers)
    ensures
        count_announced(auths, peers) <= auths.len(),
    decreases auths.len(),
{
    if auths.len() > 0 {
        lemma_count_announced_bound(auths.drop_last(), peers);
    }
}

} // verus!
