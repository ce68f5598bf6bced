//! The registry of gossip peers: the consensus state of each network peer and
//! the mapping from authority keys to the peers that announced them.
//!
//! Network peers and authority keys are carried as `u64` handles.

use vstd::prelude::*;
use crate::assoc::{
    find_opt,
    distinct_keys,
    lemma_find_absent,
    lemma_find_at,
    lemma_set_at,
    lemma_push_new,
    lemma_remove_at,
};

use crate::keygen::{sort_nodes, sorted};

verus! {

/// Where a peer stands in the consensus handshake.
#[derive(Clone, Copy, Debug, PartialEq, Eq, Structural)]
pub enum PeerConsensusState {
    Unknown,
    Connected,
    GreetingReceived,
    Disconnected,
}

/// What a gossip validator does with a message.
#[derive(Clone, Copy, Debug, PartialEq, Eq, Structural)]
pub enum Action {
    /// Repropagate under the topic.
    Keep,
    /// Process and discard.
    ProcessAndDiscard,
    Discard,
    /// Useless under this topic.
    Useless(u64),
}

/// What is known of one network peer.
#[derive(Clone, Copy, Debug)]
pub struct PeerInfo {
    /// The authority key the peer announced, if any.
    pub id: Option<u64>,
    pub net_id: u64,
    pub state: PeerConsensusState,
}

/// A peer counts as connected once connected or greeted.
pub open spec fn is_connected(s: PeerConsensusState) -> bool {
    s == PeerConsensusState::Connected || s == PeerConsensusState::GreetingReceived
}

/// The fresh record of a peer seen for the first time.
pub open spec fn fresh_info(who: u64) -> PeerInfo {
    PeerInfo { id: None, net_id: who, state: PeerConsensusState::Unknown }
}

/// The peer records keyed by network id.
pub open spec fn keyed(s: Seq<PeerInfo>) -> Seq<(u64, PeerInfo)> {
    s.map_values(|p: PeerInfo| (p.net_id, p))
}

/// Network ids of the connected peers, in registry order.
pub open spec fn connected_ids(s: Seq<PeerInfo>) -> Seq<u64>
    decreases s.len(),
{
    if s.len() == 0 {
        Seq::empty()
    } else if is_connected(s.last().state) {
        connected_ids(s.drop_last()).push(s.last().net_id)
    } else {
        connected_ids(s.drop_last())
    }
}

impl PeerInfo {
    pub fn new(n_id: u64) -> (r: PeerInfo)
        ensures
            r == fresh_info(n_id),
    {
        PeerInfo { id: None, net_id: n_id, state: PeerConsensusState::Unknown }
    }

    pub fn new_id(id: u64, n_id: u64) -> (r: PeerInfo)
        ensures
            r == (PeerInfo { id: Some(id), net_id: n_id, state: PeerConsensusState::Unknown }),
    {
        PeerInfo { id: Some(id), net_id: n_id, state: PeerConsensusState::Unknown }
    }
}

/// The peers known to gossip.
pub struct Peers {
    pub inner: Vec<PeerInfo>,
    /// Authority key to the network peer that announced it.
    pub inverse: Vec<(u64, u64)>,
}

proof fn lemma_keyed_push(s: Seq<PeerInfo>, p: PeerInfo)
    ensures
        keyed(s.push(p)) == keyed(s).push((p.net_id, p)),
{
    assert(keyed(s.push(p)) =~= keyed(s).push((p.net_id, p)));
}

proof fn lemma_keyed_update(s: Seq<PeerInfo>, i: int, p: PeerInfo)
    requires
        0 <= i < s.len(),
        p.net_id == s[i].net_id,
    ensures
        keyed(s.update(i, p)) == keyed(s).update(i, (keyed(s)[i].0, p)),
{
    assert(keyed(s.update(i, p)) =~= keyed(s).update(i, (keyed(s)[i].0, p)));
}

impl Peers {
    /// The record of network peer `who`.
    pub open spec fn info(&self, who: u64) -> Option<PeerInfo> {
        find_opt(keyed(self.inner@), who)
    }

    /// The network peer that announced authority key `a`.
    pub open spec fn peer_of(&self, a: u64) -> Option<u64> {
        find_opt(self.inverse@, a)
    }

    /// Records are keyed by distinct network ids, authority keys are
    /// distinct, and every announced key points at a known peer.
    pub open spec fn wf(&self) -> bool {
        &&& distinct_keys(keyed(self.inner@))
        &&& distinct_keys(self.inverse@)
        &&& forall|i: int|
            0 <= i < self.inverse@.len() ==> (#[trigger] self.info(self.inverse@[i].1)) is Some
    }

    /// Authority keys whose announcing peer is connected, in registry order.
    pub open spec fn connected_authorities(&self, s: Seq<(u64, u64)>) -> Seq<u64>
        decreases s.len(),
    {
        if s.len() == 0 {
            Seq::empty()
        } else if self.info(s.last().1) is Some && is_connected(
            self.info(s.last().1).unwrap().state,
        ) {
            self.connected_authorities(s.drop_last()).push(s.last().0)
        } else {
            self.connected_authorities(s.drop_last())
        }
    }

    /// What `update_id(who, auth)` leaves under authority key `k`.
    pub open spec fn inverse_after_update(&self, who: u64, auth: u64, k: u64) -> Option<u64> {
        match self.info(who) {
            None => if k == auth {
                Some(who)
            } else {
                self.peer_of(k)
            },
            Some(p) => if p.id is Some && p.id.unwrap() != auth && k == p.id.unwrap() {
                None
            } else if k == auth && self.peer_of(auth) is None {
                Some(who)
            } else {
                self.peer_of(k)
            },
        }
    }

    pub fn new() -> (r: Peers)
        ensures
            r.wf(),
            r.inner@.len() == 0,
            r.inverse@.len() == 0,
    {
        Peers { inner: Vec::new(), inverse: Vec::new() }
    }

    fn index_of_peer(&self, who: u64) -> (r: Option<usize>)
        requires
            self.wf(),
        ensures
            match r {
                Some(i) => i < self.inner@.len() && self.inner@[i as int].net_id == who
                    && self.info(who) == Some(self.inner@[i as int]),
                None => self.info(who) is None && forall|j: int|
                    0 <= j < self.inner@.len() ==> self.inner@[j].net_id != who,
            },
    {
        let mut i: usize = 0;
        while i < self.inner.len()
            invariant
                self.wf(),
                0 <= i <= self.inner@.len(),
                forall|j: int| 0 <= j < i ==> self.inner@[j].net_id != who,
            decreases self.inner@.len() - i,
        {
            if self.inner[i].net_id == who {
                proof {
                    lemma_find_at(keyed(self.inner@), i as int);
                }
                return Some(i);
            }
            i = i + 1;
        }
        proof {
            lemma_find_absent(keyed(self.inner@), who);
        }
        None
    }

    fn index_of_authority(&self, a: u64) -> (r: Option<usize>)
        requires
            distinct_keys(self.inverse@),
        ensures
            match r {
                Some(i) => i < self.inverse@.len() && self.inverse@[i as int].0 == a
                    && self.peer_of(a) == Some(self.inverse@[i as int].1),
                None => self.peer_of(a) is None && forall|j: int|
                    0 <= j < self.inverse@.len() ==> self.inverse@[j].0 != a,
            },
    {
        let mut i: usize = 0;
        while i < self.inverse.len()
            invariant
                distinct_keys(self.inverse@),
                0 <= i <= self.inverse@.len(),
                forall|j: int| 0 <= j < i ==> self.inverse@[j].0 != a,
            decreases self.inverse@.len() - i,
        {
            if self.inverse[i].0 == a {
                proof {
                    lemma_find_at(self.inverse@, i as int);
                }
                return Some(i);
            }
            i = i + 1;
        }
        proof {
            lemma_find_absent(self.inverse@, a);
        }
        None
    }

    /// Registers a peer seen on the network; a known peer is left as it is.
    pub fn new_peer(&mut self, who: u64)
        requires
            old(self).wf(),
        ensures
            final(self).wf(),
            final(self).inverse@ == old(self).inverse@,
            final(self).info(who) == (if old(self).info(who) is Some {
                old(self).info(who)
            } else {
                Some(fresh_info(who))
            }),
            forall|k: u64| k != who ==> final(self).info(k) == old(self).info(k),
    {
        match self.index_of_peer(who) {
            Some(_) => {},
            None => {
                let ghost before = *self;
                let ti = PeerInfo::new(who);
                self.inner.push(ti);
                proof {
                    lemma_keyed_push(before.inner@, ti);
                    assert forall|i: int| 0 <= i < keyed(before.inner@).len() implies keyed(
                        before.inner@,
                    )[i].0 != who by {}
                    lemma_push_new(keyed(before.inner@), who, ti);
                    assert forall|i: int| 0 <= i < self.inverse@.len() implies (#[trigger] self.info(
                        self.inverse@[i].1,
                    )) is Some by {
                        assert(before.info(before.inverse@[i].1) is Some);
                    }
                }
            },
        }
    }

    /// Sets the consensus state of `who`, registering it if unknown.
    pub fn update_peer_state(&mut self, who: u64, state: PeerConsensusState)
        requires
            old(self).wf(),
        ensures
            final(self).wf(),
            final(self).inverse@ == old(self).inverse@,
            final(self).info(who) == Some(
                match old(self).info(who) {
                    Some(p) => PeerInfo { state: state, ..p },
                    None => PeerInfo { state: state, ..fresh_info(who) },
                },
            ),
            forall|k: u64| k != who ==> final(self).info(k) == old(self).info(k),
    {
        let ghost before = *self;
        match self.index_of_peer(who) {
            Some(i) => {
                let mut p = self.inner[i];
                p.state = state;
                self.inner.set(i, p);
                proof {
                    lemma_keyed_update(before.inner@, i as int, p);
                    lemma_set_at(keyed(before.inner@), i as int, p);
                    assert forall|j: int| 0 <= j < self.inverse@.len() implies (#[trigger] self.info(
                        self.inverse@[j].1,
                    )) is Some by {
                        assert(before.info(before.inverse@[j].1) is Some);
                    }
                }
            },
            None => {
                let mut ti = PeerInfo::new(who);
                ti.state = state;
                self.inner.push(ti);
                proof {
                    lemma_keyed_push(before.inner@, ti);
                    assert forall|i: int| 0 <= i < keyed(before.inner@).len() implies keyed(
                        before.inner@,
                    )[i].0 != who by {}
                    lemma_push_new(keyed(before.inner@), who, ti);
                    assert forall|j: int| 0 <= j < self.inverse@.len() implies (#[trigger] self.info(
                        self.inverse@[j].1,
                    )) is Some by {
                        assert(before.info(before.inverse@[j].1) is Some);
                    }
                }
            },
        }
    }

    /// Network ids of all known peers, in registry order.
    pub fn peer_list(&self) -> (r: Vec<u64>)
        ensures
            r@ == self.inner@.map_values(|p: PeerInfo| p.net_id),
    {
        let mut r: Vec<u64> = Vec::new();
        let mut i: usize = 0;
        while i < self.inner.len()
            invariant
                0 <= i <= self.inner@.len(),
                r@ == self.inner@.take(i as int).map_values(|p: PeerInfo| p.net_id),
            decreases self.inner@.len() - i,
        {
            r.push(self.inner[i].net_id);
            proof {
                assert(self.inner@.take(i + 1).map_values(|p: PeerInfo| p.net_id)
                    =~= self.inner@.take(i as int).map_values(|p: PeerInfo| p.net_id).push(
                    self.inner@[i as int].net_id,
                ));
            }
            i = i + 1;
        }
        assert(self.inner@.take(self.inner@.len() as int) =~= self.inner@);
        r
    }

    /// Network ids of the connected peers, in registry order.
    pub fn connected_peer_list(&self) -> (r: Vec<u64>)
        ensures
            r@ == connected_ids(self.inner@),
    {
        let mut r: Vec<u64> = Vec::new();
        let mut i: usize = 0;
        while i < self.inner.len()
            invariant
                0 <= i <= self.inner@.len(),
                r@ == connected_ids(self.inner@.take(i as int)),
            decreases self.inner@.len() - i,
        {
            proof {
                assert(self.inner@.take(i + 1).drop_last() =~= self.inner@.take(i as int));
                assert(self.inner@.take(i + 1).last() == self.inner@[i as int]);
            }
            let st = self.inner[i].state;
            if st == PeerConsensusState::Connected || st == PeerConsensusState::GreetingReceived {
                r.push(self.inner[i].net_id);
            }
            i = i + 1;
        }
        assert(self.inner@.take(self.inner@.len() as int) =~= self.inner@);
        r
    }

    /// Authority keys whose announcing peer is connected, ascending.
    pub fn connected_badgerid_list(&self) -> (r: Vec<u64>)
        requires
            self.wf(),
        ensures
            sorted(r@),
            forall|i: int, j: int| 0 <= i < j < r@.len() ==> r@[i] != r@[j],
            forall|x: u64| r@.contains(x) <==> self.connected_authorities(self.inverse@).contains(x),
    {
        sort_nodes(self.connected_in_registry_order())
    }

    /// Authority keys whose announcing peer is connected, in registry order.
    fn connected_in_registry_order(&self) -> (r: Vec<u64>)
        requires
            self.wf(),
        ensures
            r@ == self.connected_authorities(self.inverse@),
    {
        let mut r: Vec<u64> = Vec::new();
        let mut i: usize = 0;
        while i < self.inverse.len()
            invariant
                self.wf(),
                0 <= i <= self.inverse@.len(),
                r@ == self.connected_authorities(self.inverse@.take(i as int)),
            decreases self.inverse@.len() - i,
        {
            proof {
                assert(self.inverse@.take(i + 1).drop_last() =~= self.inverse@.take(i as int));
                assert(self.inverse@.take(i + 1).last() == self.inverse@[i as int]);
            }
            let (k, v) = self.inverse[i];
            match self.index_of_peer(v) {
                Some(j) => {
                    let st = self.inner[j].state;
                    if st == PeerConsensusState::Connected || st
                        == PeerConsensusState::GreetingReceived {
                        r.push(k);
                    }
                },
                None => {},
            }
            i = i + 1;
        }
        assert(self.inverse@.take(self.inverse@.len() as int) =~= self.inverse@);
        r
    }

    /// The network peer that announced authority key `id`.
    pub fn badgerid_to_peerid(&self, id: u64) -> (r: Option<u64>)
        requires
            self.wf(),
        ensures
            r == self.peer_of(id),
    {
        match self.index_of_authority(id) {
            None => None,
            Some(j) => {
                let pi = self.inverse[j].1;
                match self.index_of_peer(pi) {
                    Some(i) => Some(self.inner[i].net_id),
                    None => {
                        proof {
                            assert(self.info(self.inverse@[j as int].1) is Some);
                        }
                        None
                    },
                }
            },
        }
    }

    /// Marks a known peer as disconnected; its record is kept.
    pub fn peer_disconnected(&mut self, who: u64)
        requires
            old(self).wf(),
        ensures
            final(self).wf(),
            final(self).inverse@ == old(self).inverse@,
            final(self).info(who) == (match old(self).info(who) {
                Some(p) => Some(PeerInfo { state: PeerConsensusState::Disconnected, ..p }),
                None => None,
            }),
            forall|k: u64| k != who ==> final(self).info(k) == old(self).info(k),
    {
        let ghost before = *self;
        match self.index_of_peer(who) {
            Some(i) => {
                let mut p = self.inner[i];
                p.state = PeerConsensusState::Disconnected;
                self.inner.set(i, p);
                proof {
                    lemma_keyed_update(before.inner@, i as int, p);
                    lemma_set_at(keyed(before.inner@), i as int, p);
                    assert forall|j: int| 0 <= j < self.inverse@.len() implies (#[trigger] self.info(
                        self.inverse@[j].1,
                    )) is Some by {
                        assert(before.info(before.inverse@[j].1) is Some);
                    }
                }
            },
            None => {},
        }
    }

    /// Records that peer `who` announced authority key `auth_id`: the peer
    /// takes the key, a different key it held before is released, and the
    /// key is mapped to the peer unless another peer already holds it.
    pub fn update_id(&mut self, who: u64, auth_id: u64)
        requires
            old(self).wf(),
        ensures
            final(self).wf(),
            final(self).info(who) == Some(
                PeerInfo {
                    id: Some(auth_id),
                    net_id: who,
                    state: match old(self).info(who) {
                        Some(p) => p.state,
                        None => PeerConsensusState::Unknown,
                    },
                },
            ),
            forall|k: u64| k != who ==> final(self).info(k) == old(self).info(k),
            forall|k: u64| #[trigger]
                final(self).peer_of(k) == old(self).inverse_after_update(who, auth_id, k),
    {
        let ghost before = *self;
        match self.index_of_peer(who) {
            None => {
                let ti = PeerInfo::new_id(auth_id, who);
                self.inner.push(ti);
                proof {
                    lemma_keyed_push(before.inner@, ti);
                    assert forall|i: int| 0 <= i < keyed(before.inner@).len() implies keyed(
                        before.inner@,
                    )[i].0 != who by {}
                    lemma_push_new(keyed(before.inner@), who, ti);
                }
                let ghost mid = *self;
                self.insert_authority(auth_id, who);
                proof {
                    assert(mid.inverse@ == before.inverse@);
                    assert forall|j: int| 0 <= j < self.inverse@.len() implies (#[trigger] self.info(
                        self.inverse@[j].1,
                    )) is Some by {
                        let k = self.inverse@[j].0;
                        let v = self.inverse@[j].1;
                        lemma_find_at(self.inverse@, j);
                        assert(self.peer_of(k) == Some(v));
                        if v != who {
                            assert(k != auth_id);
                            assert(mid.peer_of(k) == Some(v));
                            assert(before.peer_of(k) == Some(v));
                            lemma_peer_of_known(before, k);
                            assert(before.info(v) is Some);
                        }
                    }
                }
            },
            Some(i) => {
                let p = self.inner[i];
                match p.id {
                    Some(a) => {
                        if a != auth_id {
                            self.remove_authority(a);
                        }
                    },
                    None => {},
                }
                let ghost mid = *self;
                proof {
                    assert forall|k: u64| #[trigger]
                        mid.peer_of(k) == (if p.id is Some && p.id.unwrap() != auth_id && k
                            == p.id.unwrap() {
                            None
                        } else {
                            before.peer_of(k)
                        }) by {}
                    assert(mid.inner@ == before.inner@);
                }
                match self.index_of_authority(auth_id) {
                    Some(_) => {},
                    None => {
                        self.inverse.push((auth_id, who));
                        proof {
                            lemma_push_new(mid.inverse@, auth_id, who);
                        }
                    },
                }
                let ghost mid2 = *self;
                proof {
                    assert forall|k: u64| #[trigger]
                        mid2.peer_of(k) == (if mid.peer_of(auth_id) is None && k == auth_id {
                            Some(who)
                        } else {
                            mid.peer_of(k)
                        }) by {}
                }
                let mut np = p;
                np.id = Some(auth_id);
                self.inner.set(i, np);
                proof {
                    lemma_keyed_update(mid2.inner@, i as int, np);
                    lemma_set_at(keyed(mid2.inner@), i as int, np);
                    assert(self.inverse@ == mid2.inverse@);
                    assert forall|k: u64| #[trigger]
                        self.peer_of(k) == before.inverse_after_update(who, auth_id, k) by {
                        assert(mid2.peer_of(k) == self.peer_of(k));
                        assert(mid.peer_of(k) == self.peer_of(k) || k == auth_id);
                        assert(mid.peer_of(auth_id) == before.peer_of(auth_id));
                    }
                    assert forall|j: int| 0 <= j < self.inverse@.len() implies (#[trigger] self.info(
                        self.inverse@[j].1,
                    )) is Some by {
                        let k = self.inverse@[j].0;
                        let v = self.inverse@[j].1;
                        lemma_find_at(self.inverse@, j);
                        assert(self.peer_of(k) == Some(v));
                        assert(mid2.peer_of(k) == Some(v));
                        if v != who {
                            assert(mid.peer_of(k) == Some(v));
                            assert(before.peer_of(k) == Some(v));
                            lemma_peer_of_known(before, k);
                        }
                    }
                }
            },
        }
    }

    /// Maps `auth` to `who`, replacing any earlier mapping of `auth`.
    fn insert_authority(&mut self, auth: u64, who: u64)
        requires
            distinct_keys(old(self).inverse@),
        ensures
            distinct_keys(final(self).inverse@),
            final(self).inner@ == old(self).inner@,
            forall|k: u64| #[trigger]
                final(self).peer_of(k) == if k == auth {
                    Some(who)
                } else {
                    old(self).peer_of(k)
                },
    {
        let ghost before = self.inverse@;
        let ghost inner0 = self.inner@;
        let mut i: usize = 0;
        while i < self.inverse.len()
            invariant
                self.inverse@ == before,
                self.inner@ == inner0,
                inner0 == old(self).inner@,
                before == old(self).inverse@,
                distinct_keys(before),
                0 <= i <= before.len(),
                forall|j: int| 0 <= j < i ==> before[j].0 != auth,
            decreases before.len() - i,
        {
            if self.inverse[i].0 == auth {
                self.inverse.set(i, (auth, who));
                proof {
                    lemma_set_at(before, i as int, who);
                }
                return;
            }
            i = i + 1;
        }
        self.inverse.push((auth, who));
        proof {
            lemma_push_new(before, auth, who);
        }
    }

    /// Drops the mapping of authority key `a`, if any.
    fn remove_authority(&mut self, a: u64)
        requires
            distinct_keys(old(self).inverse@),
        ensures
            distinct_keys(final(self).inverse@),
            final(self).inner@ == old(self).inner@,
            forall|k: u64| #[trigger]
                final(self).peer_of(k) == if k == a {
                    None
                } else {
                    old(self).peer_of(k)
                },
    {
        let ghost before = self.inverse@;
        let ghost inner0 = self.inner@;
        let mut i: usize = 0;
        while i < self.inverse.len()
            invariant
                self.inverse@ == before,
                self.inner@ == inner0,
                inner0 == old(self).inner@,
                before == old(self).inverse@,
                distinct_keys(before),
                0 <= i <= before.len(),
                forall|j: int| 0 <= j < i ==> before[j].0 != a,
            decreases before.len() - i,
        {
            if self.inverse[i].0 == a {
                self.inverse.remove(i);
                proof {
                    lemma_remove_at(before, i as int);
                }
                return;
            }
            i = i + 1;
        }
        proof {
            lemma_find_absent(before, a);
        }
    }

    /// The record of the peer that announced authority key `who`.
    pub fn peer_by_id(&self, who: u64) -> (r: Option<PeerInfo>)
        requires
            self.wf(),
        ensures
            r == (match self.peer_of(who) {
                Some(p) => self.info(p),
                None => None,
            }),
    {
        match self.index_of_authority(who) {
            None => None,
            Some(j) => {
                let pi = self.inverse[j].1;
                match self.index_of_peer(pi) {
                    Some(i) => Some(self.inner[i]),
                    None => None,
                }
            },
        }
    }

    /// The record of network peer `who`.
    pub fn peer(&self, who: u64) -> (r: Option<PeerInfo>)
        requires
            self.wf(),
        ensures
            r == self.info(who),
    {
        match self.index_of_peer(who) {
            Some(i) => Some(self.inner[i]),
            None => None,
        }
    }
}

/// Every mapped authority key points at a known peer.
proof fn lemma_peer_of_known(p: Peers, k: u64)
    requires
        p.wf(),
        p.peer_of(k) is Some,
    ensures
        p.info(p.peer_of(k).unwrap()) is Some,
{
    let s = p.inverse@;
    if forall|j: int| 0 <= j < s.len() ==> s[j].0 != k {
        lemma_find_absent(s, k);
    } else {
        let j = choose|j: int| 0 <= j < s.len() && s[j].0 == k;
        lemma_find_at(s, j);
        assert(p.info(s[j].1) is Some);
    }
}

proof fn lemma_connected_authorities_contains(p: Peers, s: Seq<(u64, u64)>, x: u64)
    requires
        distinct_keys(s),
    ensures
        p.connected_authorities(s).contains(x) <==> (find_opt(s, x) matches Some(q) && p.info(q) matches Some(i)
            && (i.state == PeerConsensusState::Connected || i.state
            == PeerConsensusState::GreetingReceived)),
    decreases s.len(),
{
    if s.len() > 0 {
        let rest = s.drop_last();
        assert forall|a: int, b: int| 0 <= a < b < rest.len() implies rest[a].0 != rest[b].0 by {
            assert(rest[a] == s[a] && rest[b] == s[b]);
        }
        lemma_connected_authorities_contains(p, rest, x);
        let ca = p.connected_authorities(rest);
        if s.last().0 == x {
            assert forall|a: int| 0 <= a < rest.len() implies rest[a].0 != x by {
                assert(rest[a] == s[a]);
                assert(s.last() == s[s.len() - 1]);
            }
            lemma_find_absent(rest, x);
            if p.info(s.last().1) is Some && is_connected(p.info(s.last().1).unwrap().state) {
                assert(ca.push(x)[ca.len() as int] == x);
            }
        } else {
            if p.info(s.last().1) is Some && is_connected(p.info(s.last().1).unwrap().state) {
                assert(ca.push(s.last().0).contains(x) <==> ca.contains(x)) by {
                    if ca.push(s.last().0).contains(x) {
                        let k = choose|k: int| 0 <= k < ca.len() + 1 && ca.push(s.last().0)[k] == x;
                        if k < ca.len() {
                            assert(ca[k] == x);
                        }
                    }
                    if ca.contains(x) {
                        let k = choose|k: int| 0 <= k < ca.len() && ca[k] == x;
                        assert(ca.push(s.last().0)[k] == x);
                    }
                }
            }
        }
    }
}

/// An authority key is listed as connected exactly when the peer that
/// announced it is known and either connected or greeted: the same sense
/// in which the peer itself counts as connected.
pub proof fn lemma_connected_authority_iff_peer_connected(p: Peers, x: u64)
    requires
        p.wf(),
    ensures
        p.connected_authorities(p.inverse@).contains(x) <==> (p.peer_of(x) matches Some(q) && p.info(q) matches Some(i)
            && (i.state == PeerConsensusState::Connected || i.state
            == PeerConsensusState::GreetingReceived)),
{
    lemma_connected_authorities_contains(p, p.inverse@, x);
}

} // verus!
