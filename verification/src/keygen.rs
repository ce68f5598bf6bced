//! Ordering of the genesis key generation: every node handles the `Part`
//! and `Ack` messages of `hbbft`'s synchronous key generation in one agreed
//! order, buffering whatever arrives early.
//!
//! Nodes are carried as `u64` handles of their network peers.

use vstd::prelude::*;
use std::collections::VecDeque;
use crate::peers::Peers;

verus! {

#[verifier::external_type_specification]
#[verifier::external_body]
#[verifier::reject_recursive_types(N)]
pub struct ExSyncKeyGen<N>(hbbft::sync_key_gen::SyncKeyGen<N>);

#[verifier::external_type_specification]
#[verifier::external_body]
pub struct ExPart(hbbft::sync_key_gen::Part);

#[verifier::external_type_specification]
#[verifier::external_body]
pub struct ExAck(hbbft::sync_key_gen::Ack);

#[verifier::external_type_specification]
#[verifier::external_body]
pub struct ExOsRng(rand::rngs::OsRng);

#[verifier::external_type_specification]
#[verifier::external_body]
pub struct ExHbSecretKey(hbbft::crypto::SecretKey);

#[verifier::external_type_specification]
#[verifier::external_body]
pub struct ExHbPublicKey(hbbft::crypto::PublicKey);

/// A key-generation message: a node's `Part`, or an `Ack` of the part
/// proposed by the node named in it.
pub enum SyncKeyGenMessage {
    Part(hbbft::sync_key_gen::Part),
    Ack(u64, hbbft::sync_key_gen::Ack),
}

/// What handling a `Part` came to.
pub enum PartResult {
    /// The part is valid; the `Ack` to multicast, if we are a validator.
    Valid(Option<hbbft::sync_key_gen::Ack>),
    /// The proposer is faulty.
    Invalid,
    /// The part could not be handled (unknown sender, no randomness).
    Failed,
}

/// What handling an `Ack` came to.
pub enum AckResult {
    Valid,
    /// The sender is faulty.
    Invalid,
    /// The ack could not be handled (unknown sender).
    Failed,
}

/// `SyncKeyGen::new` for node `our_id`, with secret key `sec_key`, among
/// the nodes of `pub_keys` (made into the ordered map that `new` takes) and
/// with `threshold`: the key generation and our part, or `None` where `new`
/// fails. A node without a key in `pub_keys` is an observer and makes no
/// part; any other node makes one.
#[verifier::external_body]
pub(crate) fn sync_key_gen_new(
    our_id: u64,
    sec_key: hbbft::crypto::SecretKey,
    pub_keys: Vec<(u64, hbbft::crypto::PublicKey)>,
    threshold: usize,
    rng: &mut rand::rngs::OsRng,
) -> (r: Option<(hbbft::sync_key_gen::SyncKeyGen<u64>, Option<hbbft::sync_key_gen::Part>)>)
    ensures
        r matches Some(x) ==> (x.1 is Some <==> exists|i: int|
            0 <= i < pub_keys@.len() && #[trigger] pub_keys@[i].0 == our_id),
{
    hbbft::sync_key_gen::SyncKeyGen::new(our_id, sec_key, pub_keys.into_iter().collect(), threshold, rng).ok()
}

/// `SyncKeyGen::handle_part`: verifies `part` from `sender` against the key
/// generation's state and encrypts our values for an `Ack`. The outcome rests
/// on that hidden state and on randomness; nothing is stated of it.
#[verifier::external_body]
fn handle_part_call(
    keygen: &mut hbbft::sync_key_gen::SyncKeyGen<u64>,
    sender: u64,
    part: hbbft::sync_key_gen::Part,
    rng: &mut rand::rngs::OsRng,
) -> PartResult {
    match keygen.handle_part(&sender, part, rng) {
        Ok(hbbft::sync_key_gen::PartOutcome::Valid(ack)) => PartResult::Valid(ack),
        Ok(hbbft::sync_key_gen::PartOutcome::Invalid(_)) => PartResult::Invalid,
        Err(_) => PartResult::Failed,
    }
}

/// `SyncKeyGen::handle_ack`: verifies `ack` from `sender` against the key
/// generation's state. The outcome rests on that hidden state; nothing is
/// stated of it.
#[verifier::external_body]
fn handle_ack_call(
    keygen: &mut hbbft::sync_key_gen::SyncKeyGen<u64>,
    sender: u64,
    ack: hbbft::sync_key_gen::Ack,
) -> AckResult {
    match keygen.handle_ack(&sender, ack) {
        Ok(hbbft::sync_key_gen::AckOutcome::Valid) => AckResult::Valid,
        Ok(hbbft::sync_key_gen::AckOutcome::Invalid(_)) => AckResult::Invalid,
        Err(_) => AckResult::Failed,
    }
}

/// `Part::clone`, which `derive(Clone)` writes: a copy of the part, equal
/// to it.
#[verifier::external_body]
fn clone_part(p: &hbbft::sync_key_gen::Part) -> (r: hbbft::sync_key_gen::Part)
    ensures
        r == *p,
{
    p.clone()
}

/// `Ack::clone`, which `derive(Clone)` writes: a copy of the ack, equal to
/// it.
#[verifier::external_body]
fn clone_ack(a: &hbbft::sync_key_gen::Ack) -> (r: hbbft::sync_key_gen::Ack)
    ensures
        r == *a,
{
    a.clone()
}

/// The shape of a message: a part, or an ack of the given proposer's part.
pub open spec fn ack_source(m: SyncKeyGenMessage) -> Option<u64> {
    match m {
        SyncKeyGenMessage::Part(_) => None,
        SyncKeyGenMessage::Ack(src, _) => Some(src),
    }
}

/// The acks still expected: for each sender in turn, the proposers whose
/// parts it has yet to ack.
pub open spec fn ack_view(q: Seq<(u64, VecDeque<u64>)>) -> Seq<(u64, Seq<u64>)> {
    q.map_values(|e: (u64, VecDeque<u64>)| (e.0, e.1@))
}

/// The expected acks in handling order, as (sender, proposer) pairs.
pub open spec fn flat(q: Seq<(u64, Seq<u64>)>) -> Seq<(u64, u64)>
    decreases q.len(),
{
    if q.len() == 0 {
        Seq::empty()
    } else {
        q[0].1.map_values(|s: u64| (q[0].0, s)) + flat(q.drop_first())
    }
}

/// The expected acks with the finished senders at the front removed.
pub open spec fn cleaned(q: Seq<(u64, Seq<u64>)>) -> Seq<(u64, Seq<u64>)>
    decreases q.len(),
{
    if q.len() > 0 && q[0].1.len() == 0 {
        cleaned(q.drop_first())
    } else {
        q
    }
}

/// Whether `sender` is the node whose message is handled next.
pub open spec fn next_sender(parts: Seq<u64>, acks: Seq<(u64, Seq<u64>)>, sender: u64) -> bool {
    if parts.len() > 0 {
        parts[0] == sender
    } else if acks.len() > 0 {
        acks[0].0 == sender
    } else {
        false
    }
}

/// Whether a message from `sender` is the one handled next: all parts come
/// first, in order; then the acks, sender by sender, each in proposer order.
pub open spec fn next_message(
    parts: Seq<u64>,
    acks: Seq<(u64, Seq<u64>)>,
    sender: u64,
    src: Option<u64>,
) -> bool {
    &&& next_sender(parts, acks, sender)
    &&& match src {
        None => parts.len() > 0 && parts[0] == sender,
        Some(s) => parts.len() == 0 && acks.len() > 0 && acks[0].0 == sender && acks[0].1.len() > 0
            && acks[0].1[0] == s,
    }
}

/// The expected acks after the next one was handled.
pub open spec fn ack_advanced(q: Seq<(u64, Seq<u64>)>) -> Seq<(u64, Seq<u64>)> {
    if q[0].1.len() <= 1 {
        q.drop_first()
    } else {
        q.update(0, (q[0].0, q[0].1.drop_first()))
    }
}

/// The expected parts after a valid part: the first one leaves.
pub open spec fn parts_after_valid(parts: Seq<u64>) -> Seq<u64> {
    if parts.len() > 0 {
        parts.drop_first()
    } else {
        parts
    }
}

/// Whether no message of `buf` is the one handled next.
pub open spec fn none_due(
    parts: Seq<u64>,
    acks: Seq<(u64, Seq<u64>)>,
    buf: Seq<(u64, SyncKeyGenMessage)>,
) -> bool {
    forall|k: int| 0 <= k < buf.len() ==> !next_message(parts, acks, #[trigger] buf[k].0, ack_source(buf[k].1))
}

/// Whether `s` is `t` with a prefix removed.
pub open spec fn is_suffix<T>(s: Seq<T>, t: Seq<T>) -> bool {
    exists|k: int| 0 <= k <= t.len() && s == t.skip(k)
}

/// A sorted sequence of node handles.
pub open spec fn sorted(s: Seq<u64>) -> bool {
    forall|i: int, j: int| 0 <= i < j < s.len() ==> s[i] <= s[j]
}

/// The state of one node's key generation.
pub struct KeyGenState {
    pub is_observer: bool,
    pub keygen: hbbft::sync_key_gen::SyncKeyGen<u64>,
    pub part: Option<hbbft::sync_key_gen::Part>,
    pub threshold: usize,
    /// Nodes whose `Part` is still expected, in handling order.
    pub expected_parts: VecDeque<u64>,
    /// For each node in turn, the proposers whose parts it has yet to ack.
    pub expected_acks: VecDeque<(u64, VecDeque<u64>)>,
    /// Messages that arrived before their turn.
    pub buffered_messages: Vec<(u64, SyncKeyGenMessage)>,
    pub is_done: bool,
    /// The messages handed to `SyncKeyGen`, with their senders, oldest first.
    pub handed: Ghost<Seq<(u64, SyncKeyGenMessage)>>,
}

proof fn lemma_flat_empty_front(q: Seq<(u64, Seq<u64>)>)
    requires
        q.len() > 0,
        q[0].1.len() == 0,
    ensures
        flat(q) == flat(q.drop_first()),
{
    assert(q[0].1.map_values(|s: u64| (q[0].0, s)) =~= Seq::<(u64, u64)>::empty());
    assert(flat(q) =~= flat(q.drop_first()));
}

proof fn lemma_cleaned(q: Seq<(u64, Seq<u64>)>)
    ensures
        flat(cleaned(q)) == flat(q),
        cleaned(q).len() > 0 ==> cleaned(q)[0].1.len() > 0,
        is_suffix(cleaned(q), q),
    decreases q.len(),
{
    if q.len() > 0 && q[0].1.len() == 0 {
        lemma_cleaned(q.drop_first());
        lemma_flat_empty_front(q);
        let k = choose|k: int|
            0 <= k <= q.drop_first().len() && cleaned(q.drop_first()) == q.drop_first().skip(k);
        assert(q.drop_first().skip(k) =~= q.skip(k + 1));
    } else {
        assert(q.skip(0) =~= q);
    }
}

proof fn lemma_flat_advance(q: Seq<(u64, Seq<u64>)>)
    requires
        q.len() > 0,
        q[0].1.len() > 0,
    ensures
        flat(ack_advanced(q)) == flat(q).drop_first(),
        flat(q).len() > 0,
        flat(q)[0] == (q[0].0, q[0].1[0]),
{
    let head = q[0].1.map_values(|s: u64| (q[0].0, s));
    let rest = q[0].1.drop_first();
    assert(head.len() > 0);
    assert(flat(q) == head + flat(q.drop_first()));
    assert((head + flat(q.drop_first()))[0] == head[0]);
    if rest.len() == 0 {
        assert(head =~= seq![(q[0].0, q[0].1[0])]);
        assert(flat(q).drop_first() =~= flat(q.drop_first()));
    } else {
        let u = q.update(0, (q[0].0, rest));
        assert(u.drop_first() =~= q.drop_first());
        assert(u[0].1.map_values(|s: u64| (u[0].0, s)) =~= head.drop_first());
        assert(flat(u) == u[0].1.map_values(|s: u64| (u[0].0, s)) + flat(u.drop_first()));
        assert(flat(q).drop_first() =~= head.drop_first() + flat(q.drop_first()));
    }
}

proof fn lemma_suffix_trans<T>(a: Seq<T>, b: Seq<T>, c: Seq<T>)
    requires
        is_suffix(a, b),
        is_suffix(b, c),
    ensures
        is_suffix(a, c),
{
    let k1 = choose|k: int| 0 <= k <= b.len() && a == b.skip(k);
    let k2 = choose|k: int| 0 <= k <= c.len() && b == c.skip(k);
    assert(c.skip(k2).skip(k1) =~= c.skip(k1 + k2));
}

proof fn lemma_suffix_refl<T>(a: Seq<T>)
    ensures
        is_suffix(a, a),
{
    assert(a.skip(0) =~= a);
}

proof fn lemma_suffix_drop_first<T>(a: Seq<T>)
    requires
        a.len() > 0,
    ensures
        is_suffix(a.drop_first(), a),
{
    assert(a.skip(1) =~= a.drop_first());
}

/// The node handles in ascending order, each once, as the keys of an
/// ordered map.
pub fn sort_nodes(v: Vec<u64>) -> (r: Vec<u64>)
    ensures
        sorted(r@),
        forall|i: int, j: int| 0 <= i < j < r@.len() ==> r@[i] != r@[j],
        forall|x: u64| r@.contains(x) <==> v@.contains(x),
{
    let mut r: Vec<u64> = Vec::new();
    let mut i: usize = 0;
    while i < v.len()
        invariant
            0 <= i <= v@.len(),
            forall|a: int, b: int| 0 <= a < b < r@.len() ==> r@[a] < r@[b],
            forall|x: u64| r@.contains(x) <==> v@.take(i as int).contains(x),
        decreases v@.len() - i,
    {
        let x = v[i];
        let mut j: usize = 0;
        while j < r.len() && r[j] < x
            invariant
                0 <= j <= r@.len(),
                forall|k: int| 0 <= k < j ==> r@[k] < x,
            decreases r@.len() - j,
        {
            j = j + 1;
        }
        let ghost old_r = r@;
        proof {
            assert(v@.take(i + 1) =~= v@.take(i as int).push(x));
        }
        if j < r.len() && r[j] == x {
            proof {
                assert forall|y: u64| r@.contains(y) <==> v@.take(i + 1).contains(y) by {
                    if v@.take(i + 1).contains(y) && y != x {
                        let t1 = v@.take(i + 1);
                        let k = choose|k: int| 0 <= k < t1.len() && t1[k] == y;
                        assert(v@.take(i as int)[k] == y);
                    }
                    if y == x {
                        assert(v@.take(i + 1)[i as int] == x);
                    }
                }
            }
        } else {
            r.insert(j, x);
            proof {
                assert(r@ =~= old_r.insert(j as int, x));
                assert forall|a: int, b: int| 0 <= a < b < r@.len() implies r@[a] < r@[b] by {
                    if b < j {
                        assert(r@[a] == old_r[a] && r@[b] == old_r[b]);
                    } else if b == j {
                        assert(r@[a] == old_r[a]);
                    } else if a < j {
                        assert(r@[a] == old_r[a] && r@[b] == old_r[b - 1]);
                        assert(old_r[j as int] > x);
                    } else if a == j {
                        assert(r@[b] == old_r[b - 1]);
                        assert(old_r[j as int] > x);
                    } else {
                        assert(r@[a] == old_r[a - 1] && r@[b] == old_r[b - 1]);
                    }
                }
                assert forall|y: u64| r@.contains(y) <==> v@.take(i + 1).contains(y) by {
                    if r@.contains(y) && y != x {
                        let k = choose|k: int| 0 <= k < r@.len() && r@[k] == y;
                        if k < j {
                            assert(old_r[k] == y);
                        } else {
                            assert(old_r[k - 1] == y);
                        }
                        assert(old_r.contains(y));
                        let t0 = v@.take(i as int);
                        let m = choose|m: int| 0 <= m < t0.len() && t0[m] == y;
                        assert(v@.take(i + 1)[m] == y);
                    }
                    if v@.take(i + 1).contains(y) && y != x {
                        let t1 = v@.take(i + 1);
                        let k = choose|k: int| 0 <= k < t1.len() && t1[k] == y;
                        assert(v@.take(i as int)[k] == y);
                        assert(old_r.contains(y));
                        let m = choose|m: int| 0 <= m < old_r.len() && old_r[m] == y;
                        if m < j {
                            assert(r@[m] == y);
                        } else {
                            assert(r@[m + 1] == y);
                        }
                    }
                    if y == x {
                        assert(r@[j as int] == x);
                        assert(v@.take(i + 1)[i as int] == x);
                    }
                }
            }
        }
        i = i + 1;
    }
    proof {
        assert(v@.take(v@.len() as int) =~= v@);
    }
    r
}

impl KeyGenState {
    /// The acks still expected.
    pub open spec fn acks(&self) -> Seq<(u64, Seq<u64>)> {
        ack_view(self.expected_acks@)
    }

    /// The messages handed to `SyncKeyGen` so far, with their senders,
    /// oldest first.
    pub open spec fn handed(&self) -> Seq<(u64, SyncKeyGenMessage)> {
        self.handed@
    }

    /// A key generation among `members` that handles every part, then every
    /// node's acks of every part, all in ascending node order.
    pub fn new(
        keygen: hbbft::sync_key_gen::SyncKeyGen<u64>,
        is_observer: bool,
        threshold: usize,
        members: Vec<u64>,
    ) -> (r: KeyGenState)
        ensures
            sorted(r.expected_parts@),
            forall|i: int, j: int|
                0 <= i < j < r.expected_parts@.len() ==> r.expected_parts@[i]
                    != r.expected_parts@[j],
            forall|x: u64| r.expected_parts@.contains(x) <==> members@.contains(x),
            r.acks().len() == r.expected_parts@.len(),
            forall|i: int|
                0 <= i < r.acks().len() ==> (#[trigger] r.acks()[i]).0 == r.expected_parts@[i]
                    && r.acks()[i].1 == r.expected_parts@,
            r.buffered_messages@.len() == 0,
            !r.is_done,
            r.threshold == threshold,
            r.is_observer == is_observer,
            r.handed().len() == 0,
    {
        let template = sort_nodes(members);
        let mut parts: VecDeque<u64> = VecDeque::new();
        let mut i: usize = 0;
        while i < template.len()
            invariant
                0 <= i <= template@.len(),
                parts@ == template@.take(i as int),
            decreases template@.len() - i,
        {
            parts.push_back(template[i]);
            proof {
                assert(template@.take(i + 1) =~= template@.take(i as int).push(template@[i as int]));
            }
            i = i + 1;
        }
        proof {
            assert(template@.take(template@.len() as int) =~= template@);
        }
        let mut acks: VecDeque<(u64, VecDeque<u64>)> = VecDeque::new();
        let mut j: usize = 0;
        while j < template.len()
            invariant
                0 <= j <= template@.len(),
                parts@ == template@,
                acks@.len() == j,
                forall|k: int|
                    0 <= k < j ==> (#[trigger] acks@[k]).0 == template@[k] && acks@[k].1@
                        == template@,
            decreases template@.len() - j,
        {
            let mut row: VecDeque<u64> = VecDeque::new();
            let mut k: usize = 0;
            while k < template.len()
                invariant
                    0 <= k <= template@.len(),
                    row@ == template@.take(k as int),
                decreases template@.len() - k,
            {
                row.push_back(template[k]);
                proof {
                    assert(template@.take(k + 1) =~= template@.take(k as int).push(
                        template@[k as int],
                    ));
                }
                k = k + 1;
            }
            proof {
                assert(template@.take(template@.len() as int) =~= template@);
            }
            acks.push_back((template[j], row));
            j = j + 1;
        }
        KeyGenState {
            is_observer,
            keygen,
            part: None,
            threshold,
            expected_parts: parts,
            expected_acks: acks,
            buffered_messages: Vec::new(),
            is_done: false,
            handed: Ghost(Seq::empty()),
        }
    }

    /// Drops the senders at the front whose acks have all been handled;
    /// key generation is done once none is left.
    pub fn clean_queues(&mut self)
        ensures
            final(self).handed() == old(self).handed(),
            final(self).acks() == cleaned(old(self).acks()),
            final(self).is_done == (old(self).is_done || (old(self).acks().len() > 0 && cleaned(
                old(self).acks(),
            ).len() == 0)),
            final(self).expected_parts@ == old(self).expected_parts@,
            final(self).buffered_messages@ == old(self).buffered_messages@,
            final(self).threshold == old(self).threshold,
            final(self).is_observer == old(self).is_observer,
    {
        if self.expected_acks.len() == 0 {
            return;
        }
        while self.expected_acks.len() > 0 && self.expected_acks[0].1.len() == 0
            invariant
                cleaned(self.acks()) == cleaned(old(self).acks()),
                old(self).acks().len() > 0,
                self.expected_acks@.len() > 0,
                self.is_done == old(self).is_done,
                self.handed() == old(self).handed(),
                self.expected_parts@ == old(self).expected_parts@,
                self.buffered_messages@ == old(self).buffered_messages@,
                self.threshold == old(self).threshold,
                self.is_observer == old(self).is_observer,
            decreases self.expected_acks@.len(),
        {
            let ghost q = self.acks();
            proof {
                assert(q[0].1.len() == 0);
            }
            self.expected_acks.pop_front();
            proof {
                assert(self.acks() =~= q.drop_first());
            }
            if self.expected_acks.len() == 0 {
                self.is_done = true;
                proof {
                    assert(cleaned(self.acks()) =~= Seq::<(u64, Seq<u64>)>::empty());
                }
                return;
            }
        }
        proof {
            assert(self.acks().len() > 0);
            assert(self.acks()[0].1.len() > 0);
            assert(cleaned(self.acks()) == self.acks());
        }
    }

    /// Whether `sender` is the node whose message is handled next.
    pub fn is_next_sender(&self, sender: u64) -> (r: bool)
        ensures
            r == next_sender(self.expected_parts@, self.acks(), sender),
    {
        if self.expected_parts.len() > 0 {
            return self.expected_parts[0] == sender;
        }
        if self.expected_acks.len() > 0 {
            return self.expected_acks[0].0 == sender;
        }
        false
    }

    /// Whether `msg` from `sender` is the message handled next.
    pub fn is_next_message(&self, sender: u64, msg: &SyncKeyGenMessage) -> (r: bool)
        ensures
            r == next_message(self.expected_parts@, self.acks(), sender, ack_source(*msg)),
    {
        if !self.is_next_sender(sender) {
            return false;
        }
        match msg {
            SyncKeyGenMessage::Part(_) => {
                self.expected_parts.len() > 0 && self.expected_parts[0] == sender
            },
            SyncKeyGenMessage::Ack(src, _) => {
                if self.expected_parts.len() > 0 {
                    return false;
                }
                if self.expected_acks.len() > 0 {
                    self.expected_acks[0].0 == sender && self.expected_acks[0].1.len() > 0
                        && self.expected_acks[0].1[0] == *src
                } else {
                    false
                }
            },
        }
    }

    /// Handles a part: it is handed to `SyncKeyGen` with randomness from
    /// `rng`; on success its sender leaves the expected parts, and our ack
    /// of it, if we made one, is returned. What `handle_part` makes of the
    /// part is taken as [`KeyGenState::take_part_outcome`] says.
    pub fn process_part(
        &mut self,
        sender: u64,
        part: hbbft::sync_key_gen::Part,
        rng: &mut rand::rngs::OsRng,
    ) -> (r: Vec<SyncKeyGenMessage>)
        ensures
            final(self).handed() == old(self).handed().push((sender, SyncKeyGenMessage::Part(part))),
            final(self).acks() == old(self).acks(),
            final(self).buffered_messages@ == old(self).buffered_messages@,
            final(self).is_done == old(self).is_done,
            final(self).threshold == old(self).threshold,
            final(self).is_observer == old(self).is_observer,
            (final(self).expected_parts@ == old(self).expected_parts@ && r@.len() == 0) || (
            final(self).expected_parts@ == parts_after_valid(old(self).expected_parts@)
                && r@.len() <= 1),
            forall|i: int| 0 <= i < r@.len() ==> ack_source(#[trigger] r@[i]) == Some(sender),
    {
        self.handed = Ghost(self.handed@.push((sender, SyncKeyGenMessage::Part(part))));
        let outcome = handle_part_call(&mut self.keygen, sender, part, rng);
        self.take_part_outcome(sender, outcome)
    }

    /// Takes what handling a part from `sender` came to: a valid part
    /// leaves the expected parts, with our ack of it returned if we made
    /// one; otherwise nothing changes.
    pub fn take_part_outcome(&mut self, sender: u64, outcome: PartResult) -> (r: Vec<SyncKeyGenMessage>)
        ensures
            final(self).handed() == old(self).handed(),
            final(self).acks() == old(self).acks(),
            final(self).buffered_messages@ == old(self).buffered_messages@,
            final(self).is_done == old(self).is_done,
            final(self).threshold == old(self).threshold,
            final(self).is_observer == old(self).is_observer,
            match outcome {
                PartResult::Valid(a) => {
                    &&& final(self).expected_parts@ == parts_after_valid(old(self).expected_parts@)
                    &&& match a {
                        Some(ack) => r@ == seq![SyncKeyGenMessage::Ack(sender, ack)],
                        None => r@.len() == 0,
                    }
                },
                _ => final(self).expected_parts@ == old(self).expected_parts@ && r@.len() == 0,
            },
    {
        let mut ret: Vec<SyncKeyGenMessage> = Vec::new();
        match outcome {
            PartResult::Valid(Some(ack)) => {
                self.expected_parts.pop_front();
                ret.push(SyncKeyGenMessage::Ack(sender, ack));
            },
            PartResult::Valid(None) => {
                self.expected_parts.pop_front();
            },
            PartResult::Invalid => {},
            PartResult::Failed => {},
        }
        ret
    }

    /// Handles the next expected ack, an ack from `sender` of the part that
    /// `src` proposed: it is handed to `SyncKeyGen`; on success it leaves
    /// the expected acks, and key generation is done once none is left.
    /// What `handle_ack` makes of the ack is taken as
    /// [`KeyGenState::take_ack_outcome`] says.
    pub fn process_ack(&mut self, sender: u64, src: u64, ack: hbbft::sync_key_gen::Ack)
        requires
            old(self).acks().len() > 0,
        ensures
            final(self).handed() == old(self).handed().push((sender, SyncKeyGenMessage::Ack(src, ack))),
            final(self).expected_parts@ == old(self).expected_parts@,
            final(self).buffered_messages@ == old(self).buffered_messages@,
            final(self).threshold == old(self).threshold,
            final(self).is_observer == old(self).is_observer,
            (final(self).acks() == old(self).acks() && final(self).is_done == old(self).is_done) || (
            final(self).acks() == ack_advanced(old(self).acks()) && final(self).is_done == (old(
                self,
            ).is_done || ack_advanced(old(self).acks()).len() == 0)),
    {
        self.handed = Ghost(self.handed@.push((sender, SyncKeyGenMessage::Ack(src, ack))));
        let outcome = handle_ack_call(&mut self.keygen, sender, ack);
        self.take_ack_outcome(outcome);
    }

    /// Takes what handling the next expected ack came to: a valid ack
    /// leaves the expected acks, and key generation is done once none is
    /// left; otherwise nothing changes.
    pub fn take_ack_outcome(&mut self, outcome: AckResult)
        requires
            old(self).acks().len() > 0,
        ensures
            final(self).handed() == old(self).handed(),
            final(self).expected_parts@ == old(self).expected_parts@,
            final(self).buffered_messages@ == old(self).buffered_messages@,
            final(self).threshold == old(self).threshold,
            final(self).is_observer == old(self).is_observer,
            outcome is Valid ==> {
                &&& final(self).acks() == ack_advanced(old(self).acks())
                &&& final(self).is_done == (old(self).is_done || ack_advanced(old(self).acks()).len()
                    == 0)
            },
            !(outcome is Valid) ==> final(self).acks() == old(self).acks() && final(self).is_done
                == old(self).is_done,
    {
        match outcome {
            AckResult::Valid => {},
            AckResult::Invalid => {
                return;
            },
            AckResult::Failed => {
                return;
            },
        }
        let ghost q = self.acks();
        let (src, mut row) = match self.expected_acks.pop_front() {
            Some(e) => e,
            None => {
                return;
            },
        };
        row.pop_front();
        if row.len() == 0 {
            proof {
                assert(self.acks() =~= ack_advanced(q));
            }
            if self.expected_acks.len() == 0 {
                self.is_done = true;
            }
        } else {
            self.expected_acks.push_front((src, row));
            proof {
                assert(self.acks() =~= ack_advanced(q));
            }
        }
    }

    /// Keeps an early message for its turn; a part arriving when no part is
    /// expected any more is dropped.
    pub fn maybe_buffer(&mut self, sender: u64, msg: SyncKeyGenMessage)
        ensures
            final(self).handed() == old(self).handed(),
            final(self).expected_parts@ == old(self).expected_parts@,
            final(self).acks() == old(self).acks(),
            final(self).is_done == old(self).is_done,
            final(self).threshold == old(self).threshold,
            final(self).is_observer == old(self).is_observer,
            final(self).buffered_messages@ == if ack_source(msg) is None
                && old(self).expected_parts@.len() == 0 {
                old(self).buffered_messages@
            } else {
                old(self).buffered_messages@.push((sender, msg))
            },
    {
        if let SyncKeyGenMessage::Part(_) = msg {
            if self.expected_parts.len() == 0 {
                return;
            }
        }
        self.buffered_messages.push((sender, msg));
    }

    /// The first buffered message whose turn it is.
    fn next_buffered(&self) -> (r: Option<usize>)
        ensures
            match r {
                Some(i) => i < self.buffered_messages@.len() && next_message(
                    self.expected_parts@,
                    self.acks(),
                    self.buffered_messages@[i as int].0,
                    ack_source(self.buffered_messages@[i as int].1),
                ),
                None => forall|i: int|
                    0 <= i < self.buffered_messages@.len() ==> !next_message(
                        self.expected_parts@,
                        self.acks(),
                        #[trigger] self.buffered_messages@[i].0,
                        ack_source(self.buffered_messages@[i].1),
                    ),
            },
    {
        let mut i: usize = 0;
        while i < self.buffered_messages.len()
            invariant
                0 <= i <= self.buffered_messages@.len(),
                forall|j: int|
                    0 <= j < i ==> !next_message(
                        self.expected_parts@,
                        self.acks(),
                        #[trigger] self.buffered_messages@[j].0,
                        ack_source(self.buffered_messages@[j].1),
                    ),
            decreases self.buffered_messages@.len() - i,
        {
            if self.is_next_message(self.buffered_messages[i].0, &self.buffered_messages[i].1) {
                return Some(i);
            }
            i = i + 1;
        }
        None
    }

    /// Handles an incoming message in its turn, together with every buffered
    /// message whose turn then comes; a message out of turn is buffered.
    /// Handling a message hands it to `SyncKeyGen` (parts with randomness
    /// from `rng`). Returns the acks we generated.
    pub fn process_message(
        &mut self,
        sender: u64,
        msg: SyncKeyGenMessage,
        rng: &mut rand::rngs::OsRng,
    ) -> (r: Vec<SyncKeyGenMessage>)
        ensures
            final(self).handed().len() >= old(self).handed().len(),
            final(self).handed().take(old(self).handed().len() as int) == old(self).handed(),
            is_suffix(final(self).expected_parts@, old(self).expected_parts@),
            is_suffix(flat(final(self).acks()), flat(old(self).acks())),
            final(self).buffered_messages@.len() <= old(self).buffered_messages@.len() + 1,
            final(self).threshold == old(self).threshold,
            final(self).is_observer == old(self).is_observer,
            old(self).is_done ==> final(self).is_done,
            forall|i: int| 0 <= i < r@.len() ==> ack_source(#[trigger] r@[i]) is Some,
            (old(self).is_done || cleaned(old(self).acks()).len() == 0) ==> {
                &&& r@.len() == 0
                &&& final(self).handed() == old(self).handed()
                &&& final(self).is_done
                &&& final(self).expected_parts@ == old(self).expected_parts@
                &&& final(self).buffered_messages@ == old(self).buffered_messages@
            },
            !(old(self).is_done || cleaned(old(self).acks()).len() == 0) && !next_message(
                old(self).expected_parts@,
                cleaned(old(self).acks()),
                sender,
                ack_source(msg),
            ) ==> {
                &&& r@.len() == 0
                &&& final(self).handed() == old(self).handed()
                &&& final(self).expected_parts@ == old(self).expected_parts@
                &&& final(self).acks() == cleaned(old(self).acks())
                &&& final(self).buffered_messages@ == if ack_source(msg) is None
                    && old(self).expected_parts@.len() == 0 {
                    old(self).buffered_messages@
                } else {
                    old(self).buffered_messages@.push((sender, msg))
                }
            },
            !(old(self).is_done || cleaned(old(self).acks()).len() == 0) && next_message(
                old(self).expected_parts@,
                cleaned(old(self).acks()),
                sender,
                ack_source(msg),
            ) ==> {
                &&& final(self).handed().len() > old(self).handed().len()
                &&& final(self).handed().take(old(self).handed().len() as int) == old(self).handed()
                &&& final(self).handed()[old(self).handed().len() as int] == (sender, msg)
                &&& forall|i: int|
                    old(self).handed().len() < i < final(self).handed().len() ==> old(
                        self,
                    ).buffered_messages@.contains(#[trigger] final(self).handed()[i])
                &&& final(self).buffered_messages@.len() + (final(self).handed().len() - old(
                    self,
                ).handed().len()) == old(self).buffered_messages@.len() + 1
                &&& forall|k: int|
                    0 <= k < final(self).buffered_messages@.len() ==> old(
                        self,
                    ).buffered_messages@.contains(#[trigger] final(self).buffered_messages@[k])
                &&& none_due(
                    final(self).expected_parts@,
                    final(self).acks(),
                    final(self).buffered_messages@,
                )
            },
    {
        proof {
            lemma_cleaned(self.acks());
            lemma_suffix_refl(flat(self.acks()));
        }
        self.clean_queues();
        let mut ret: Vec<SyncKeyGenMessage> = Vec::new();
        if self.expected_acks.len() == 0 || self.is_done {
            self.is_done = true;
            proof {
                lemma_suffix_refl(self.expected_parts@);
            }
            return ret;
        }
        if !self.is_next_message(sender, &msg) {
            self.maybe_buffer(sender, msg);
            proof {
                lemma_suffix_refl(self.expected_parts@);
            }
            return ret;
        }
        let ghost parts0 = old(self).expected_parts@;
        let ghost flat0 = flat(old(self).acks());
        let ghost buf0 = old(self).buffered_messages@;
        let ghost h0 = old(self).handed();
        let ghost mut first: bool = true;
        proof {
            lemma_suffix_refl(parts0);
        }
        let mut spl = sender;
        let mut nmsg = msg;
        loop
            invariant_except_break
                next_message(self.expected_parts@, self.acks(), spl, ack_source(nmsg)),
                self.buffered_messages@.len() + (self.handed().len() - h0.len()) == buf0.len(),
                first ==> self.handed() == h0 && spl == sender && nmsg == msg,
                !first ==> buf0.contains((spl, nmsg)),
            invariant
                h0 == old(self).handed(),
                buf0 == old(self).buffered_messages@,
                self.handed().len() >= h0.len(),
                self.handed().take(h0.len() as int) == h0,
                !first ==> self.handed().len() > h0.len() && self.handed()[h0.len() as int] == (
                    sender,
                    msg,
                ),
                forall|i: int|
                    h0.len() < i < self.handed().len() ==> buf0.contains(#[trigger] self.handed()[i]),
                forall|k: int| 0 <= k < self.buffered_messages@.len() ==> buf0.contains(
                    #[trigger] self.buffered_messages@[k],
                ),
                is_suffix(self.expected_parts@, parts0),
                is_suffix(flat(self.acks()), flat0),
                self.buffered_messages@.len() <= buf0.len(),
                self.threshold == old(self).threshold,
                self.is_observer == old(self).is_observer,
                old(self).is_done ==> self.is_done,
                forall|i: int| 0 <= i < ret@.len() ==> ack_source(#[trigger] ret@[i]) is Some,
            ensures
                self.handed().len() > h0.len(),
                self.handed().take(h0.len() as int) == h0,
                self.handed()[h0.len() as int] == (sender, msg),
                forall|i: int|
                    h0.len() < i < self.handed().len() ==> buf0.contains(#[trigger] self.handed()[i]),
                self.buffered_messages@.len() + (self.handed().len() - h0.len()) == buf0.len() + 1,
                forall|k: int| 0 <= k < self.buffered_messages@.len() ==> buf0.contains(
                    #[trigger] self.buffered_messages@[k],
                ),
                none_due(self.expected_parts@, self.acks(), self.buffered_messages@),
            decreases self.buffered_messages@.len(),
        {
            let ghost cur = (spl, nmsg);
            let ghost hb = self.handed();
            match nmsg {
                SyncKeyGenMessage::Part(parted) => {
                    let ghost p0 = self.expected_parts@;
                    let mut acks = self.process_part(spl, parted, rng);
                    proof {
                        if self.expected_parts@ != p0 {
                            lemma_suffix_drop_first(p0);
                            lemma_suffix_trans(self.expected_parts@, p0, parts0);
                        }
                    }
                    let ghost r0 = ret@;
                    let ghost a0 = acks@;
                    ret.append(&mut acks);
                    proof {
                        assert forall|i: int| 0 <= i < ret@.len() implies ack_source(
                            #[trigger] ret@[i],
                        ) is Some by {
                            if i >= r0.len() {
                                assert(ret@[i] == a0[i - r0.len()]);
                            } else {
                                assert(ret@[i] == r0[i]);
                            }
                        }
                    }
                },
                SyncKeyGenMessage::Ack(src, ack) => {
                    let ghost q0 = self.acks();
                    self.process_ack(spl, src, ack);
                    proof {
                        if self.acks() != q0 {
                            lemma_flat_advance(q0);
                            lemma_suffix_drop_first(flat(q0));
                            lemma_suffix_trans(flat(self.acks()), flat(q0), flat0);
                        }
                    }
                },
            }
            proof {
                assert(self.handed() == hb.push(cur));
                assert(self.handed().take(h0.len() as int) =~= h0) by {
                    assert(hb.take(h0.len() as int) == h0);
                }
                assert forall|i: int|
                    h0.len() < i < self.handed().len() implies buf0.contains(
                        #[trigger] self.handed()[i],
                    ) by {
                    if i < hb.len() {
                        assert(self.handed()[i] == hb[i]);
                    }
                }
                first = false;
            }
            match self.next_buffered() {
                Some(i) => {
                    let ghost bb = self.buffered_messages@;
                    let (aspl, anmsg) = self.buffered_messages.remove(i);
                    proof {
                        assert(bb[i as int] == (aspl, anmsg));
                        assert(buf0.contains(bb[i as int]));
                        assert forall|k: int| 0 <= k < self.buffered_messages@.len() implies buf0.contains(
                            #[trigger] self.buffered_messages@[k],
                        ) by {
                            if k < i {
                                assert(self.buffered_messages@[k] == bb[k]);
                            } else {
                                assert(self.buffered_messages@[k] == bb[k + 1]);
                            }
                        }
                    }
                    spl = aspl;
                    nmsg = anmsg;
                },
                None => {
                    break;
                },
            }
        }
        ret
    }

    /// Starts key generation with our own part, if we propose one: the part
    /// is handled first, then our ack of it, and the messages to multicast
    /// are returned, the part last. Parts are handed to `SyncKeyGen` with
    /// randomness from `rng`.
    pub fn start(
        &mut self,
        my_peer: u64,
        part: Option<hbbft::sync_key_gen::Part>,
        rng: &mut rand::rngs::OsRng,
    ) -> (r: Vec<SyncKeyGenMessage>)
        ensures
            part is None ==> r@.len() == 0 && final(self).handed() == old(self).handed(),
            part matches Some(p) ==> {
                &&& r@.len() >= 1
                &&& r@.last() == SyncKeyGenMessage::Part(p)
                &&& forall|i: int| 0 <= i < r@.len() - 1 ==> ack_source(#[trigger] r@[i]) is Some
            },
            part matches Some(p) ==> (!(old(self).is_done || cleaned(old(self).acks()).len() == 0)
                && next_message(old(self).expected_parts@, cleaned(old(self).acks()), my_peer, None)
                ==> final(self).handed().len() > old(self).handed().len()
                && final(self).handed()[old(self).handed().len() as int] == (
                my_peer,
                SyncKeyGenMessage::Part(p),
            )),
            final(self).handed().len() >= old(self).handed().len(),
            final(self).handed().take(old(self).handed().len() as int) == old(self).handed(),
            is_suffix(final(self).expected_parts@, old(self).expected_parts@),
            is_suffix(flat(final(self).acks()), flat(old(self).acks())),
            final(self).threshold == old(self).threshold,
            final(self).is_observer == old(self).is_observer,
    {
        match part {
            None => {
                proof {
                    lemma_suffix_refl(self.expected_parts@);
                    lemma_suffix_refl(flat(self.acks()));
                }
                Vec::new()
            },
            Some(parted) => {
                let ghost p0 = self.expected_parts@;
                let ghost f0 = flat(self.acks());
                let ghost hs0 = self.handed();
                let mut acks = self.process_message(my_peer, SyncKeyGenMessage::Part(clone_part(&parted)), rng);
                let ghost hs1 = self.handed();
                if acks.len() > 0 {
                    let first = match &acks[0] {
                        SyncKeyGenMessage::Ack(src, a) => SyncKeyGenMessage::Ack(*src, clone_ack(a)),
                        SyncKeyGenMessage::Part(p) => SyncKeyGenMessage::Part(clone_part(p)),
                    };
                    let ghost p1 = self.expected_parts@;
                    let ghost f1 = flat(self.acks());
                    let ghost a0 = acks@;
                    let mut more = self.process_message(my_peer, first, rng);
                    let ghost m0 = more@;
                    acks.append(&mut more);
                    proof {
                        let hf = self.handed();
                        assert(hf.take(hs0.len() as int) =~= hs1.take(hs0.len() as int)) by {
                            assert(hf.take(hs1.len() as int) == hs1);
                        }
                        if hs1.len() > hs0.len() {
                            assert(hf[hs0.len() as int] == hf.take(hs1.len() as int)[hs0.len() as int]);
                        }
                        lemma_suffix_trans(self.expected_parts@, p1, p0);
                        lemma_suffix_trans(flat(self.acks()), f1, f0);
                        assert forall|i: int| 0 <= i < acks@.len() implies ack_source(
                            #[trigger] acks@[i],
                        ) is Some by {
                            if i < a0.len() {
                                assert(acks@[i] == a0[i]);
                            } else {
                                assert(acks@[i] == m0[i - a0.len()]);
                            }
                        }
                    }
                }
                let ghost a1 = acks@;
                acks.push(SyncKeyGenMessage::Part(parted));
                proof {
                    assert forall|i: int| 0 <= i < acks@.len() - 1 implies ack_source(
                        #[trigger] acks@[i],
                    ) is Some by {
                        assert(acks@[i] == a1[i]);
                    }
                }
                acks
            },
        }
    }
}

/// How key generation starts, given the keys saved earlier.
#[derive(Clone, Copy, Debug, PartialEq, Eq, Structural)]
pub enum KeygenStart {
    /// The saved keys are for the current set: consensus starts with them.
    UseSaved,
    /// Keys are generated anew; `delete_saved` says whether keys saved for
    /// another set are deleted first.
    Regenerate { delete_saved: bool },
}

/// The start of key generation in set `set_id`, given the set id of the
/// saved keys, if any were found.
pub fn keygen_start(saved_set_id: Option<u64>, set_id: u64) -> (r: KeygenStart)
    ensures
        r == match saved_set_id {
            Some(s) => if s == set_id {
                KeygenStart::UseSaved
            } else {
                KeygenStart::Regenerate { delete_saved: true }
            },
            None => KeygenStart::Regenerate { delete_saved: false },
        },
{
    match saved_set_id {
        Some(s) => if s == set_id {
            KeygenStart::UseSaved
        } else {
            KeygenStart::Regenerate { delete_saved: true }
        },
        None => KeygenStart::Regenerate { delete_saved: false },
    }
}

/// The key-generation members: the network peer of each authority, our own
/// peer for our own key.
pub fn keygen_members(authorities: &Vec<u64>, self_key: u64, my_peer_id: u64, peers: &Peers) -> (r:
    Vec<u64>)
    requires
        peers.wf(),
        forall|i: int|
            0 <= i < authorities@.len() ==> authorities@[i] == self_key || peers.peer_of(
                #[trigger] authorities@[i],
            ) is Some,
    ensures
        r@.len() == authorities@.len(),
        forall|i: int|
            0 <= i < r@.len() ==> r@[i] == if authorities@[i] == self_key {
                my_peer_id
            } else {
                peers.peer_of(authorities@[i]).unwrap()
            },
{
    let mut r: Vec<u64> = Vec::new();
    let mut i: usize = 0;
    while i < authorities.len()
        invariant
            peers.wf(),
            0 <= i <= authorities@.len(),
            r@.len() == i,
            forall|j: int|
                0 <= j < authorities@.len() ==> authorities@[j] == self_key || peers.peer_of(
                    #[trigger] authorities@[j],
                ) is Some,
            forall|j: int|
                0 <= j < i ==> r@[j] == if authorities@[j] == self_key {
                    my_peer_id
                } else {
                    peers.peer_of(authorities@[j]).unwrap()
                },
        decreases authorities@.len() - i,
    {
        let a = authorities[i];
        if a == self_key {
            r.push(my_peer_id);
        } else {
            match peers.badgerid_to_peerid(a) {
                Some(p) => r.push(p),
                None => {
                    proof {
                        assert(peers.peer_of(authorities@[i as int]) is Some);
                    }
                    r.push(0);
                },
            }
        }
        i = i + 1;
    }
    r
}

} // verus!
