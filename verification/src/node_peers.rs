//! The peer registry of the standalone consensus node: each network peer's
//! handshake state and the authority key it announced.
//!
//! Network peers and authority keys are carried as `u64` handles.

use vstd::prelude::*;
use crate::assoc::{find_opt, distinct_keys, lemma_find_absent, lemma_find_at, lemma_set_at, lemma_push_new};

verus! {

/// Where a peer stands in the consensus handshake.
#[derive(Clone, Copy, Debug, PartialEq, Eq, Structural)]
pub enum PeerConsensusState {
    Unknown,
    Connected,
    GreetingReceived,
    Disconnected,
}

/// What a gossip validator does with a message.
#[derive(Clone, Copy, Debug, PartialEq, Eq, Structural)]
pub enum Action {
    /// Repropagate under the topic.
    Keep,
    /// Process and discard.
    ProcessAndDiscard,
    Discard,
    /// Useless under this topic.
    Useless(u64),
}

/// What is known of one peer.
#[derive(Clone, Copy, Debug)]
pub struct PeerInfo {
    pub id: Option<u64>,
    pub state: PeerConsensusState,
}

impl PeerInfo {
    pub fn new() -> (r: PeerInfo)
        ensures
            r == (PeerInfo { id: None, state: PeerConsensusState::Unknown }),
    {
        PeerInfo { id: None, state: PeerConsensusState::Unknown }
    }

    pub fn new_id(id: u64) -> (r: PeerInfo)
        ensures
            r == (PeerInfo { id: Some(id), state: PeerConsensusState::Unknown }),
    {
        PeerInfo { id: Some(id), state: PeerConsensusState::Unknown }
    }
}

/// Connected or greeted.
pub open spec fn is_connected(s: PeerConsensusState) -> bool {
    s == PeerConsensusState::Connected || s == PeerConsensusState::GreetingReceived
}

/// Connected peers, in registry order.
pub open spec fn connected_of(s: Seq<(u64, PeerInfo)>) -> Seq<u64>
    decreases s.len(),
{
    if s.len() == 0 {
        Seq::empty()
    } else if is_connected(s.last().1.state) {
        connected_of(s.drop_last()).push(s.last().0)
    } else {
        connected_of(s.drop_last())
    }
}

/// The peers known to gossip.
pub struct Peers {
    inner: Vec<(u64, PeerInfo)>,
}

impl Peers {
    pub closed spec fn entries(&self) -> Seq<(u64, PeerInfo)> {
        self.inner@
    }

    /// The record of peer `who`.
    pub open spec fn info(&self, who: u64) -> Option<PeerInfo> {
        find_opt(self.entries(), who)
    }

    pub closed spec fn wf(&self) -> bool {
        distinct_keys(self.inner@)
    }

    pub fn new() -> (r: Peers)
        ensures
            r.wf(),
            r.entries().len() == 0,
            forall|w: u64| #[trigger] r.info(w) is None,
    {
        let r = Peers { inner: Vec::new() };
        proof {
            assert forall|w: u64| #[trigger] r.info(w) is None by {
                lemma_find_absent(r.inner@, w);
            }
        }
        r
    }

    fn index_of(&self, who: u64) -> (r: Option<usize>)
        requires
            self.wf(),
        ensures
            match r {
                Some(i) => i < self.inner@.len() && self.inner@[i as int].0 == who && self.info(who)
                    == Some(self.inner@[i as int].1),
                None => self.info(who) is None && forall|j: int|
                    0 <= j < self.inner@.len() ==> self.inner@[j].0 != who,
            },
    {
        let mut i: usize = 0;
        while i < self.inner.len()
            invariant
                self.wf(),
                0 <= i <= self.inner@.len(),
                forall|j: int| 0 <= j < i ==> self.inner@[j].0 != who,
            decreases self.inner@.len() - i,
        {
            if self.inner[i].0 == who {
                proof {
                    lemma_find_at(self.inner@, i as int);
                }
                return Some(i);
            }
            i = i + 1;
        }
        proof {
            lemma_find_absent(self.inner@, who);
        }
        None
    }

    /// Sets the record of `who`; the others are left as they are.
    fn put(&mut self, who: u64, p: PeerInfo)
        requires
            old(self).wf(),
        ensures
            final(self).wf(),
            final(self).info(who) == Some(p),
            forall|w: u64| w != who ==> #[trigger] final(self).info(w) == old(self).info(w),
    {
        let ghost before = self.inner@;
        match self.index_of(who) {
            Some(i) => {
                self.inner.set(i, (who, p));
                proof {
                    lemma_set_at(before, i as int, p);
                }
            },
            None => {
                self.inner.push((who, p));
                proof {
                    lemma_push_new(before, who, p);
                }
            },
        }
        proof {
            assert forall|w: u64| w != who implies #[trigger] self.info(w) == old(self).info(w) by {
                assert(find_opt(self.inner@, w) == find_opt(before, w));
            }
            assert(find_opt(self.inner@, who) == Some(p));
        }
    }

    /// Registers a peer seen on the network; a known peer is left as it is.
    pub fn new_peer(&mut self, who: u64)
        requires
            old(self).wf(),
        ensures
            final(self).wf(),
            final(self).info(who) == if old(self).info(who) is Some {
                old(self).info(who)
            } else {
                Some(PeerInfo { id: None, state: PeerConsensusState::Unknown })
            },
            forall|w: u64| w != who ==> #[trigger] final(self).info(w) == old(self).info(w),
    {
        if self.index_of(who).is_none() {
            self.put(who, PeerInfo::new());
        }
    }

    /// Sets the handshake state of `who`, registering it if unknown.
    pub fn update_peer_state(&mut self, who: u64, state: PeerConsensusState)
        requires
            old(self).wf(),
        ensures
            final(self).wf(),
            final(self).info(who) == Some(
                PeerInfo {
                    id: match old(self).info(who) {
                        Some(p) => p.id,
                        None => None,
                    },
                    state,
                },
            ),
            forall|w: u64| w != who ==> #[trigger] final(self).info(w) == old(self).info(w),
    {
        let id = match self.index_of(who) {
            Some(i) => self.inner[i].1.id,
            None => None,
        };
        self.put(who, PeerInfo { id, state });
    }

    /// Marks a known peer as disconnected.
    pub fn peer_disconnected(&mut self, who: u64)
        requires
            old(self).wf(),
        ensures
            final(self).wf(),
            final(self).info(who) == match old(self).info(who) {
                Some(p) => Some(PeerInfo { state: PeerConsensusState::Disconnected, ..p }),
                None => None,
            },
            forall|w: u64| w != who ==> #[trigger] final(self).info(w) == old(self).info(w),
    {
        match self.index_of(who) {
            Some(i) => {
                let p = self.inner[i].1;
                self.put(who, PeerInfo { state: PeerConsensusState::Disconnected, ..p });
            },
            None => {},
        }
    }

    /// Records the authority key `who` announced, registering it if unknown.
    pub fn update_id(&mut self, who: u64, auth_id: u64)
        requires
            old(self).wf(),
        ensures
            final(self).wf(),
            final(self).info(who) == Some(
                PeerInfo {
                    id: Some(auth_id),
                    state: match old(self).info(who) {
                        Some(p) => p.state,
                        None => PeerConsensusState::Unknown,
                    },
                },
            ),
            forall|w: u64| w != who ==> #[trigger] final(self).info(w) == old(self).info(w),
    {
        let state = match self.index_of(who) {
            Some(i) => self.inner[i].1.state,
            None => PeerConsensusState::Unknown,
        };
        self.put(who, PeerInfo { id: Some(auth_id), state });
    }

    /// The record of `who`.
    pub fn peer(&self, who: u64) -> (r: Option<PeerInfo>)
        requires
            self.wf(),
        ensures
            r == self.info(who),
    {
        match self.index_of(who) {
            Some(i) => Some(self.inner[i].1),
            None => None,
        }
    }

    /// All known peers, in registry order.
    pub fn peer_list(&self) -> (r: Vec<u64>)
        ensures
            r@ == self.entries().map_values(|e: (u64, PeerInfo)| e.0),
    {
        let mut r: Vec<u64> = Vec::new();
        let mut i: usize = 0;
        while i < self.inner.len()
            invariant
                0 <= i <= self.inner@.len(),
                r@ == self.inner@.take(i as int).map_values(|e: (u64, PeerInfo)| e.0),
            decreases self.inner@.len() - i,
        {
            r.push(self.inner[i].0);
            proof {
                assert(self.inner@.take(i + 1).map_values(|e: (u64, PeerInfo)| e.0)
                    =~= self.inner@.take(i as int).map_values(|e: (u64, PeerInfo)| e.0).push(
                    self.inner@[i as int].0,
                ));
            }
            i = i + 1;
        }
        assert(self.inner@.take(i as int) =~= self.inner@);
        r
    }

    /// The connected peers, in registry order.
    pub fn connected_peer_list(&self) -> (r: Vec<u64>)
        ensures
            r@ == connected_of(self.entries()),
    {
        let mut r: Vec<u64> = Vec::new();
        let mut i: usize = 0;
        while i < self.inner.len()
            invariant
                0 <= i <= self.inner@.len(),
                r@ == connected_of(self.inner@.take(i as int)),
            decreases self.inner@.len() - i,
        {
            proof {
                assert(self.inner@.take(i + 1).drop_last() =~= self.inner@.take(i as int));
                assert(self.inner@.take(i + 1).last() == self.inner@[i as int]);
            }
            let st = self.inner[i].1.state;
            if st == PeerConsensusState::Connected || st == PeerConsensusState::GreetingReceived {
                r.push(self.inner[i].0);
            }
            i = i + 1;
        }
        assert(self.inner@.take(i as int) =~= self.inner@);
        r
    }
}

} // verus!
