//! Messages of the MPC key-generation service and its registry of peers,
//! where each peer's index is its rank in the ordered set of peer names.
//!
//! Peers are carried as `u64` handles and named by their base58 text.

use vstd::prelude::*;
use std::cmp::Ordering;
use crate::assoc::{find_opt, distinct_keys, lemma_find_absent, lemma_find_at, lemma_set_at, lemma_push_new, lemma_remove_at};
use crate::byte_order::lex_order;
use crate::crypto::lex_compare;

verus! {

/// A broadcast round message.
#[derive(Clone, Copy, Debug, PartialEq, Eq, Structural)]
pub struct BroadCastMessage {
    pub msg: u32,
}

/// A decommit round message.
#[derive(Clone, Copy, Debug, PartialEq, Eq, Structural)]
pub struct DecommitMessage {
    pub msg: u32,
}

/// Key-generation round messages.
#[derive(Clone, Copy, Debug, PartialEq, Eq, Structural)]
pub enum KeyGenMessage {
    BroadCast(BroadCastMessage),
    Decommit(DecommitMessage),
    VSS,
    SecretShares,
    Proof,
}

/// Signing round messages.
#[derive(Clone, Copy, Debug, PartialEq, Eq, Structural)]
pub enum SignMessage {
    BroadCast,
    Decommit,
    Proof,
}

/// Peer confirmation: a peer confirms its index and the hash of the peer
/// set it sees, and is answered with the confirmer's name.
pub enum ConfirmPeersMessage {
    Confirming(u16, u64),
    Confirmed(String),
}

/// A message of the service.
pub enum Message {
    ConfirmPeers(ConfirmPeersMessage),
    KeyGen(KeyGenMessage),
    Sign(SignMessage),
}

/// Whether a gossiped message of the service has expired, given the
/// message (`None` where it did not decode), our key-generation state and
/// the hash of our peer set: a peer confirmation expires once we no
/// longer await peers, or when it confirms another peer set; a
/// key-generation message once we are done.
pub fn message_expired(msg: Option<&Message>, local_state: PeerState, our_hash: u64) -> (r: bool)
    ensures
        r == match msg {
            None => true,
            Some(Message::ConfirmPeers(ConfirmPeersMessage::Confirming(_, hash))) => our_hash != hash
                || local_state != PeerState::AwaitingPeers,
            Some(Message::ConfirmPeers(ConfirmPeersMessage::Confirmed(_))) => local_state
                != PeerState::AwaitingPeers,
            Some(Message::KeyGen(_)) => local_state == PeerState::Complete,
            Some(Message::Sign(_)) => false,
        },
{
    match msg {
        None => true,
        Some(Message::ConfirmPeers(cpm)) => {
            let invalid_state = local_state != PeerState::AwaitingPeers;
            match cpm {
                ConfirmPeersMessage::Confirming(_, hash) => our_hash != *hash || invalid_state,
                ConfirmPeersMessage::Confirmed(_) => invalid_state,
            }
        },
        Some(Message::KeyGen(_)) => local_state == PeerState::Complete,
        Some(Message::Sign(_)) => false,
    }
}

/// Whether a message may be sent: a periodic rebroadcast when one is due,
/// otherwise peer confirmations and key-generation messages.
pub fn message_allowed(periodic_rebroadcast: bool, rebroadcast_due: bool, msg: Option<&Message>) -> (r: bool)
    ensures
        r == if periodic_rebroadcast {
            rebroadcast_due
        } else {
            match msg {
                Some(Message::ConfirmPeers(_)) => true,
                Some(Message::KeyGen(_)) => true,
                _ => false,
            }
        },
{
    if periodic_rebroadcast {
        return rebroadcast_due;
    }
    match msg {
        Some(Message::ConfirmPeers(_)) => true,
        Some(Message::KeyGen(_)) => true,
        _ => false,
    }
}

/// The signers the service persisted.
pub struct SharedState {
    pub signer_set: Vec<Vec<u8>>,
}

/// Where a peer stands in key generation.
#[derive(Clone, Copy, Debug, PartialEq, Eq, Structural)]
pub enum PeerState {
    AwaitingPeers,
    Generating,
    Complete,
}

impl PeerState {
    pub fn default() -> (r: PeerState)
        ensures
            r == PeerState::AwaitingPeers,
    {
        PeerState::AwaitingPeers
    }
}

/// What the registry knows of a peer.
#[derive(Clone, Copy, Debug)]
pub struct PeerInfo {
    pub state: PeerState,
}

/// Names strictly ascending in byte order.
pub open spec fn names_ascending(s: Seq<Seq<u8>>) -> bool {
    forall|i: int, j: int| 0 <= i < j < s.len() ==> lex_order(s[i], s[j]) == -1
}

/// The peer registry.
pub struct Peers {
    map: Vec<(u64, PeerInfo)>,
    set: Vec<Vec<u8>>,
}

/// Byte order of names: -1, 0 or 1.
fn compare_names(a: &Vec<u8>, b: &Vec<u8>) -> (r: i8)
    ensures
        r == lex_order(a@, b@),
{
    match lex_compare(a.as_slice(), b.as_slice()) {
        Ordering::Less => -1,
        Ordering::Equal => 0,
        Ordering::Greater => 1,
    }
}

impl Peers {
    /// The state of peer `who`.
    pub closed spec fn state_of(&self, who: u64) -> Option<PeerState> {
        match find_opt(self.map@, who) {
            Some(p) => Some(p.state),
            None => None,
        }
    }

    /// The peer names, ascending.
    pub closed spec fn names(&self) -> Seq<Seq<u8>> {
        self.set@.map_values(|v: Vec<u8>| v@)
    }

    pub closed spec fn count(&self) -> nat {
        self.map@.len()
    }

    pub closed spec fn wf(&self) -> bool {
        &&& distinct_keys(self.map@)
        &&& names_ascending(self.names())
    }

    pub fn new() -> (r: Peers)
        ensures
            r.wf(),
            r.count() == 0,
            r.names().len() == 0,
            forall|w: u64| #[trigger] r.state_of(w) is None,
    {
        let r = Peers { map: Vec::new(), set: Vec::new() };
        proof {
            assert(r.names() =~= Seq::<Seq<u8>>::empty());
            assert forall|w: u64| #[trigger] r.state_of(w) is None by {
                lemma_find_absent(r.map@, w);
            }
        }
        r
    }

    fn index_of(&self, who: u64) -> (r: Option<usize>)
        requires
            distinct_keys(self.map@),
        ensures
            match r {
                Some(i) => i < self.map@.len() && self.map@[i as int].0 == who && find_opt(
                    self.map@,
                    who,
                ) == Some(self.map@[i as int].1),
                None => find_opt(self.map@, who) is None && forall|j: int|
                    0 <= j < self.map@.len() ==> self.map@[j].0 != who,
            },
    {
        let mut i: usize = 0;
        while i < self.map.len()
            invariant
                distinct_keys(self.map@),
                0 <= i <= self.map@.len(),
                forall|j: int| 0 <= j < i ==> self.map@[j].0 != who,
            decreases self.map@.len() - i,
        {
            if self.map[i].0 == who {
                proof {
                    lemma_find_at(self.map@, i as int);
                }
                return Some(i);
            }
            i = i + 1;
        }
        proof {
            lemma_find_absent(self.map@, who);
        }
        None
    }

    /// The number of peers.
    pub fn len(&self) -> (r: usize)
        ensures
            r == self.count(),
    {
        self.map.len()
    }

    /// The rank of `name` among the peer names.
    pub fn get_position(&self, name: &Vec<u8>) -> (r: Option<usize>)
        requires
            self.wf(),
        ensures
            match r {
                Some(i) => i < self.names().len() && self.names()[i as int] == name@,
                None => !self.names().contains(name@),
            },
    {
        let mut i: usize = 0;
        while i < self.set.len()
            invariant
                self.wf(),
                0 <= i <= self.set@.len(),
                forall|j: int| 0 <= j < i ==> self.names()[j] != name@,
            decreases self.set@.len() - i,
        {
            let c = compare_names(&self.set[i], name);
            proof {
                assert(self.names()[i as int] == self.set@[i as int]@);
            }
            if c == 0 {
                proof {
                    lemma_lex_zero(self.set@[i as int]@, name@);
                }
                return Some(i);
            }
            proof {
                lemma_lex_self(name@);
            }
            i = i + 1;
        }
        None
    }

    /// The name of the peer ranked `index`.
    pub fn get_peer_id_by_index(&self, index: usize) -> (r: Option<Vec<u8>>)
        ensures
            index < self.names().len() ==> r is Some && r.unwrap()@ == self.names()[index as int],
            index >= self.names().len() ==> r is None,
    {
        if index < self.set.len() {
            let s = &self.set[index];
            let mut out: Vec<u8> = Vec::new();
            let mut k: usize = 0;
            while k < s.len()
                invariant
                    0 <= k <= s@.len(),
                    out@ == s@.take(k as int),
                decreases s@.len() - k,
            {
                out.push(s[k]);
                proof {
                    assert(s@.take(k + 1) =~= s@.take(k as int).push(s@[k as int]));
                }
                k = k + 1;
            }
            assert(s@.take(k as int) =~= s@);
            Some(out)
        } else {
            None
        }
    }

    /// Adds peer `who`, named `name`, awaiting peers.
    pub fn add(&mut self, who: u64, name: Vec<u8>)
        requires
            old(self).wf(),
        ensures
            final(self).wf(),
            final(self).state_of(who) == Some(PeerState::AwaitingPeers),
            forall|w: u64| w != who ==> #[trigger] final(self).state_of(w) == old(self).state_of(w),
            forall|n: Seq<u8>| final(self).names().contains(n) <==> (old(self).names().contains(n) || n == name@),
    {
        let info = PeerInfo { state: PeerState::AwaitingPeers };
        let ghost before = self.map@;
        match self.index_of(who) {
            Some(i) => {
                self.map.set(i, (who, info));
                proof {
                    lemma_set_at(before, i as int, info);
                    assert forall|w: u64| w != who implies #[trigger] self.state_of(w) == old(self).state_of(w) by {
                        assert(find_opt(self.map@, w) == find_opt(before, w));
                    }
                    assert(find_opt(self.map@, who) == Some(info));
                }
            },
            None => {
                self.map.push((who, info));
                proof {
                    lemma_push_new(before, who, info);
                    assert forall|w: u64| w != who implies #[trigger] self.state_of(w) == old(self).state_of(w) by {
                        assert(find_opt(self.map@, w) == find_opt(before, w));
                    }
                    assert(find_opt(self.map@, who) == Some(info));
                }
            },
        }
        self.insert_name(name);
    }

    fn insert_name(&mut self, name: Vec<u8>)
        requires
            names_ascending(old(self).names()),
        ensures
            names_ascending(final(self).names()),
            final(self).map@ == old(self).map@,
            forall|n: Seq<u8>| final(self).names().contains(n) <==> (old(self).names().contains(n) || n == name@),
    {
        let ghost s = self.names();
        let mut j: usize = 0;
        while j < self.set.len() && compare_names(&self.set[j], &name) == -1
            invariant
                self.names() == s,
                self.map@ == old(self).map@,
                s == old(self).names(),
                names_ascending(s),
                0 <= j <= s.len(),
                forall|a: int| 0 <= a < j ==> lex_order(s[a], name@) == -1,
            decreases s.len() - j,
        {
            proof {
                assert(s[j as int] == self.set@[j as int]@);
            }
            j = j + 1;
        }
        proof {
            if j < s.len() {
                assert(s[j as int] == self.set@[j as int]@);
            }
        }
        if j < self.set.len() && compare_names(&self.set[j], &name) == 0 {
            proof {
                assert(s[j as int] == self.set@[j as int]@);
                lemma_lex_zero(s[j as int], name@);
                assert forall|n: Seq<u8>| self.names().contains(n) <==> (s.contains(n) || n == name@) by {
                    if n == name@ {
                        assert(s[j as int] == n);
                    }
                }
            }
            return;
        }
        let ghost nv = name@;
        self.set.insert(j, name);
        proof {
            let t = self.names();
            assert(t =~= s.insert(j as int, nv));
            if j < s.len() {
                assert(s[j as int] == old(self).set@[j as int]@);
                lemma_lex_not_less(s[j as int], nv);
            }
            assert forall|a: int, b: int| 0 <= a < b < t.len() implies lex_order(t[a], t[b]) == -1 by {
                if b < j {
                    assert(t[a] == s[a] && t[b] == s[b]);
                } else if b == j {
                    assert(t[a] == s[a]);
                } else if a < j {
                    assert(t[a] == s[a] && t[b] == s[b - 1]);
                    lemma_lex_trans(s[a], nv, s[j as int]);
                    if b - 1 > j {
                        lemma_lex_trans(s[a], s[j as int], s[b - 1]);
                    }
                } else if a == j {
                    assert(t[b] == s[b - 1]);
                    if b - 1 > j {
                        lemma_lex_trans(nv, s[j as int], s[b - 1]);
                    }
                } else {
                    assert(t[a] == s[a - 1] && t[b] == s[b - 1]);
                }
            }
            assert forall|n: Seq<u8>| t.contains(n) <==> (s.contains(n) || n == nv) by {
                if t.contains(n) {
                    let k = choose|k: int| 0 <= k < t.len() && t[k] == n;
                    if k < j {
                        assert(s[k] == n);
                    } else if k > j {
                        assert(s[k - 1] == n);
                    }
                }
                if s.contains(n) {
                    let k = choose|k: int| 0 <= k < s.len() && s[k] == n;
                    if k < j {
                        assert(t[k] == n);
                    } else {
                        assert(t[k + 1] == n);
                    }
                }
                if n == nv {
                    assert(t[j as int] == n);
                }
            }
        }
    }

    /// Removes peer `who`, named `name`.
    pub fn del(&mut self, who: u64, name: &Vec<u8>)
        requires
            old(self).wf(),
        ensures
            final(self).wf(),
            final(self).state_of(who) is None,
            forall|w: u64| w != who ==> #[trigger] final(self).state_of(w) == old(self).state_of(w),
            forall|n: Seq<u8>| final(self).names().contains(n) <==> (old(self).names().contains(n) && n != name@),
    {
        let ghost before = self.map@;
        match self.index_of(who) {
            Some(i) => {
                self.map.remove(i);
                proof {
                    lemma_remove_at(before, i as int);
                }
            },
            None => {},
        }
        proof {
            assert forall|w: u64| #[trigger] find_opt(self.map@, w) == if w == who {
                None
            } else {
                find_opt(before, w)
            } by {}
        }
        let ghost s = self.names();
        let mut j: usize = 0;
        while j < self.set.len()
            invariant
                self.names() == s,
                s == old(self).names(),
                names_ascending(s),
                distinct_keys(self.map@),
                before == old(self).map@,
                forall|w: u64| #[trigger] find_opt(self.map@, w) == if w == who {
                    None
                } else {
                    find_opt(before, w)
                },
                0 <= j <= s.len(),
                forall|a: int| 0 <= a < j ==> s[a] != name@,
            decreases s.len() - j,
        {
            let c = compare_names(&self.set[j], name);
            proof {
                assert(s[j as int] == self.set@[j as int]@);
            }
            if c == 0 {
                proof {
                    lemma_lex_zero(s[j as int], name@);
                }
                self.set.remove(j);
                proof {
                    let t = self.names();
                    assert(t =~= s.remove(j as int));
                    assert forall|a: int, b: int| 0 <= a < b < t.len() implies lex_order(t[a], t[b]) == -1 by {
                        let a2 = if a < j { a } else { a + 1 };
                        let b2 = if b < j { b } else { b + 1 };
                        assert(t[a] == s[a2] && t[b] == s[b2]);
                    }
                    assert forall|n: Seq<u8>| t.contains(n) <==> (s.contains(n) && n != name@) by {
                        if t.contains(n) {
                            let k = choose|k: int| 0 <= k < t.len() && t[k] == n;
                            let k2 = if k < j { k } else { k + 1 };
                            assert(s[k2] == n);
                            if n == name@ {
                                lemma_lex_self(n);
                                if k2 < j {
                                    assert(lex_order(s[k2], s[j as int]) == -1);
                                } else {
                                    assert(lex_order(s[j as int], s[k2]) == -1);
                                }
                            }
                        }
                        if s.contains(n) && n != name@ {
                            let k = choose|k: int| 0 <= k < s.len() && s[k] == n;
                            if k < j {
                                assert(t[k] == n);
                            } else {
                                assert(k != j);
                                assert(t[k - 1] == n);
                            }
                        }
                    }
                }
                return;
            }
            proof {
                lemma_lex_self(name@);
            }
            j = j + 1;
        }
    }

    fn set_state(&mut self, who: u64, state: PeerState)
        requires
            old(self).wf(),
            old(self).state_of(who) is Some,
        ensures
            final(self).wf(),
            final(self).state_of(who) == Some(state),
            forall|w: u64| w != who ==> #[trigger] final(self).state_of(w) == old(self).state_of(w),
            final(self).names() == old(self).names(),
    {
        let ghost before = self.map@;
        match self.index_of(who) {
            Some(i) => {
                let info = PeerInfo { state };
                self.map.set(i, (who, info));
                proof {
                    lemma_set_at(before, i as int, info);
                    assert forall|w: u64| w != who implies #[trigger] self.state_of(w) == old(self).state_of(w) by {
                        assert(find_opt(self.map@, w) == find_opt(before, w));
                    }
                    assert(find_opt(self.map@, who) == Some(info));
                }
            },
            None => {},
        }
    }

    /// Marks a known peer as generating.
    pub fn set_generating(&mut self, who: u64)
        requires
            old(self).wf(),
            old(self).state_of(who) is Some,
        ensures
            final(self).wf(),
            final(self).state_of(who) == Some(PeerState::Generating),
            forall|w: u64| w != who ==> #[trigger] final(self).state_of(w) == old(self).state_of(w),
            final(self).names() == old(self).names(),
    {
        self.set_state(who, PeerState::Generating);
    }

    /// Marks a known peer as complete.
    pub fn set_complete(&mut self, who: u64)
        requires
            old(self).wf(),
            old(self).state_of(who) is Some,
        ensures
            final(self).wf(),
            final(self).state_of(who) == Some(PeerState::Complete),
            forall|w: u64| w != who ==> #[trigger] final(self).state_of(w) == old(self).state_of(w),
            final(self).names() == old(self).names(),
    {
        self.set_state(who, PeerState::Complete);
    }
}

/// Equal in byte order means equal.
proof fn lemma_lex_zero(a: Seq<u8>, b: Seq<u8>)
    requires
        lex_order(a, b) == 0,
    ensures
        a == b,
    decreases a.len(),
{
    if a.len() > 0 && b.len() > 0 {
        lemma_lex_zero(a.drop_first(), b.drop_first());
        assert(a =~= seq![a[0]] + a.drop_first());
        assert(b =~= seq![b[0]] + b.drop_first());
    } else {
        assert(a.len() == 0 && b.len() == 0);
        assert(a =~= b);
    }
}

/// A name is not before itself.
proof fn lemma_lex_self(a: Seq<u8>)
    ensures
        lex_order(a, a) == 0,
    decreases a.len(),
{
    if a.len() > 0 {
        lemma_lex_self(a.drop_first());
    }
}

/// Byte order is antisymmetric.
proof fn lemma_lex_not_less(a: Seq<u8>, b: Seq<u8>)
    requires
        lex_order(a, b) != -1,
        lex_order(a, b) != 0,
    ensures
        lex_order(b, a) == -1,
    decreases a.len(),
{
    if a.len() > 0 && b.len() > 0 && a[0] == b[0] {
        lemma_lex_not_less(a.drop_first(), b.drop_first());
    }
}

/// Byte order is transitive.
proof fn lemma_lex_trans(a: Seq<u8>, b: Seq<u8>, c: Seq<u8>)
    requires
        lex_order(a, b) == -1,
        lex_order(b, c) == -1,
    ensures
        lex_order(a, c) == -1,
    decreases a.len(),
{
    if a.len() > 0 && b.len() > 0 && c.len() > 0 && a[0] == b[0] && b[0] == c[0] {
        lemma_lex_trans(a.drop_first(), b.drop_first(), c.drop_first());
    }
}

} // verus!
