//! Routed gossip: which peers a message goes to, how its route is extended
//! or narrowed on the way, and what an incoming message leads to.
//!
//! Peers, message hashes and topics are carried as `u64` handles and
//! consensus engine ids as `u32`.

use vstd::prelude::*;
use crate::assoc::{find_opt, distinct_keys, lemma_find_absent, lemma_find_at, lemma_set_at, lemma_push_new, lemma_remove_at};
use crate::consensus::ValidationResult;
use crate::known_cache::{cached, capacity, cache_new, cache_contains, cache_put, lemma_put_holds};

verus! {

/// Capacity of each known-message cache.
pub const KNOWN_MESSAGES_CACHE_SIZE: usize = 4096;

/// A route lists at most this many peers, unless given more.
pub const MAX_NUM_SET: usize = 48;

/// Why a message is sent.
#[derive(Clone, Copy, Debug, PartialEq, Eq, Structural)]
pub enum MessageIntent {
    Broadcast,
    ForcedBroadcast,
    PeriodicRebroadcast,
}

impl MessageIntent {
    pub fn broadcast() -> (r: MessageIntent)
        ensures
            r == MessageIntent::Broadcast,
    {
        MessageIntent::Broadcast
    }
}

/// Where a routed message is headed.
pub enum RoutingInfo {
    /// To everyone but these peers.
    BroadcastExclude(Vec<u64>),
    /// To these peers.
    Targeted(Vec<u64>),
    /// To the receiving peer only.
    Specific,
}

/// The view of a route.
pub enum RouteView {
    BroadcastExclude(Seq<u64>),
    Targeted(Seq<u64>),
    Specific,
}

impl RoutingInfo {
    pub open spec fn view(&self) -> RouteView {
        match self {
            RoutingInfo::BroadcastExclude(v) => RouteView::BroadcastExclude(v@),
            RoutingInfo::Targeted(v) => RouteView::Targeted(v@),
            RoutingInfo::Specific => RouteView::Specific,
        }
    }
}

/// A message with its route.
pub struct RoutedMessage {
    pub route: RoutingInfo,
    pub msg: Vec<u8>,
}

/// What gossip knows of a peer.
pub struct PeerConsensus {
    pub known_messages: lru::LruCache<u64, ()>,
}

/// A message kept for rebroadcast.
pub struct MessageEntry {
    pub message_hash: u64,
    pub cell: u64,
    pub engine_id: u32,
    pub message: Vec<u8>,
}

/// What to do with an incoming routed message.
pub enum IncomingStep {
    /// Already known, or for an engine without a validator.
    Ignore,
    /// It did not decode: report the sender.
    Malformed,
    /// Not for us: pass it on to these peers along this route.
    Forward(Vec<u64>, RoutingInfo),
    /// For us: validate this payload.
    Validate(Vec<u8>),
}

/// How a validated message ends.
#[derive(Clone, Copy, Debug, PartialEq, Eq, Structural)]
pub enum IncomingOutcome {
    /// Report the sender with this reputation change.
    Punish(i32),
    /// Report the sender for successful gossip.
    Success,
    /// The sender is not a registered peer: the message is discarded.
    Unregistered,
}

/// The gossip state.
pub struct ConsensusGossip {
    peers: Vec<(u64, PeerConsensus)>,
    messages: Vec<(u64, MessageEntry)>,
    known_messages: lru::LruCache<u64, ()>,
    validators: Vec<u32>,
    self_id: u64,
}

/// Peers of `ps` a message goes to: listed (or, when `excluding`, not
/// listed), not ourselves, and not knowing it unless it is sent to those who
/// know it too.
pub open spec fn eligible(
    ps: Seq<(u64, PeerConsensus)>,
    listed: Seq<u64>,
    excluding: bool,
    self_id: u64,
    hash: u64,
    send_to_known: bool,
) -> Seq<u64>
    decreases ps.len(),
{
    if ps.len() == 0 {
        Seq::empty()
    } else {
        let rest = eligible(ps.drop_last(), listed, excluding, self_id, hash, send_to_known);
        let (id, p) = ps.last();
        if (if excluding {
            !listed.contains(id)
        } else {
            listed.contains(id)
        }) && id != self_id && (send_to_known || !cached(p.known_messages).contains(
            hash,
        )) {
            rest.push(id)
        } else {
            rest
        }
    }
}

/// The route grown by `adds`, in order, until it lists `MAX_NUM_SET`.
pub open spec fn expand(set: Seq<u64>, adds: Seq<u64>) -> Seq<u64>
    decreases adds.len(),
{
    if adds.len() == 0 || set.len() >= MAX_NUM_SET {
        set
    } else if set.contains(adds[0]) {
        expand(set, adds.drop_first())
    } else {
        expand(set.push(adds[0]), adds.drop_first())
    }
}

/// `s` without the members of `r`.
pub open spec fn without(s: Seq<u64>, r: Seq<u64>) -> Seq<u64>
    decreases s.len(),
{
    if s.len() == 0 {
        Seq::empty()
    } else if r.contains(s.last()) {
        without(s.drop_last(), r)
    } else {
        without(s.drop_last(), r).push(s.last())
    }
}

/// The route of a broadcast: unchanged, or, when expanding, with ourselves
/// and then the targets added while it lists fewer than `MAX_NUM_SET`.
pub open spec fn broadcast_route(except: Seq<u64>, self_id: u64, targets: Seq<u64>, do_expand: bool) -> Seq<
    u64,
> {
    if !do_expand {
        except
    } else {
        let with_self = if except.len() < MAX_NUM_SET && !except.contains(self_id) {
            except.push(self_id)
        } else {
            except
        };
        expand(with_self, targets)
    }
}

/// The route of a targeted send: the targets not yet reached, or none.
pub open spec fn targeted_route(set: Seq<u64>, self_id: u64, targets: Seq<u64>, do_constrict: bool) -> RouteView {
    let rest = if do_constrict {
        without(set, targets.push(self_id))
    } else {
        set
    };
    if rest.len() == 0 {
        RouteView::Specific
    } else {
        RouteView::Targeted(rest)
    }
}

fn contains_u64(v: &Vec<u64>, x: u64) -> (r: bool)
    ensures
        r == v@.contains(x),
{
    let mut i: usize = 0;
    while i < v.len()
        invariant
            0 <= i <= v@.len(),
            forall|j: int| 0 <= j < i ==> v@[j] != x,
        decreases v@.len() - i,
    {
        if v[i] == x {
            return true;
        }
        i = i + 1;
    }
    false
}

impl ConsensusGossip {
    pub closed spec fn peer_list(&self) -> Seq<(u64, PeerConsensus)> {
        self.peers@
    }

    /// The hashes peer `p` is known to have.
    pub closed spec fn known_by(&self, p: u64) -> Option<Set<u64>> {
        match find_opt(self.peers@, p) {
            Some(pc) => Some(cached(pc.known_messages)),
            None => None,
        }
    }

    pub closed spec fn known(&self) -> Set<u64> {
        cached(self.known_messages)
    }

    /// The message kept under topic `cell`.
    pub closed spec fn kept(&self, cell: u64) -> Option<(u64, u32, Seq<u8>)> {
        match find_opt(self.messages@, cell) {
            Some(e) => Some((e.message_hash, e.engine_id, e.message@)),
            None => None,
        }
    }

    pub closed spec fn engines(&self) -> Seq<u32> {
        self.validators@
    }

    pub closed spec fn me(&self) -> u64 {
        self.self_id
    }

    pub closed spec fn wf(&self) -> bool {
        &&& distinct_keys(self.peers@)
        &&& distinct_keys(self.messages@)
    }

    /// Whether an arriving message with raw hash `pre_hash` and payload hash
    /// `message_hash` is ignored, whatever its route: either hash is known,
    /// or its engine has no validator.
    pub open spec fn ignores_incoming(&self, engine_id: u32, pre_hash: u64, message_hash: u64) -> bool {
        ||| self.known().contains(pre_hash)
        ||| !self.engines().contains(engine_id)
        ||| self.known().contains(message_hash)
    }

    /// Everything but the peers' caches is as in `other`.
    pub open spec fn same_but_peer_caches(&self, other: &ConsensusGossip) -> bool {
        &&& self.peer_list().map_values(|e: (u64, PeerConsensus)| e.0) == other.peer_list().map_values(
            |e: (u64, PeerConsensus)| e.0,
        )
        &&& self.known() == other.known()
        &&& forall|c: u64| #[trigger] self.kept(c) == other.kept(c)
        &&& self.engines() == other.engines()
        &&& self.me() == other.me()
    }

    /// Each peer the message went to now knows it; the others are as before.
    pub open spec fn marked(&self, other: &ConsensusGossip, targets: Seq<u64>, hash: u64) -> bool {
        &&& self.peer_list().len() == other.peer_list().len()
        &&& forall|i: int|
            0 <= i < self.peer_list().len() ==> {
                let (id, p) = #[trigger] self.peer_list()[i];
                let q = other.peer_list()[i].1;
                if targets.contains(id) {
                    &&& cached(p.known_messages).contains(hash)
                    &&& forall|x: u64| cached(p.known_messages).contains(x) ==> cached(
                        q.known_messages,
                    ).contains(x) || x == hash
                } else {
                    cached(p.known_messages) == cached(q.known_messages)
                }
            }
    }

    /// Gossip for our own peer `self_id`, knowing nothing yet.
    pub fn new(self_id: u64) -> (r: ConsensusGossip)
        ensures
            r.wf(),
            r.peer_list().len() == 0,
            r.known() == Set::<u64>::empty(),
            forall|c: u64| #[trigger] r.kept(c) is None,
            r.engines().len() == 0,
            r.me() == self_id,
    {
        let r = ConsensusGossip {
            peers: Vec::new(),
            messages: Vec::new(),
            known_messages: cache_new(KNOWN_MESSAGES_CACHE_SIZE),
            validators: Vec::new(),
            self_id,
        };
        proof {
            assert forall|c: u64| #[trigger] r.kept(c) is None by {
                lemma_find_absent(r.messages@, c);
            }
        }
        r
    }

    /// Registers the validator of consensus engine `engine_id` and returns
    /// the peers it is to be told of.
    pub fn register_validator(&mut self, engine_id: u32) -> (r: Vec<u64>)
        requires
            old(self).wf(),
        ensures
            final(self).wf(),
            final(self).engines().contains(engine_id),
            forall|e: u32| e != engine_id ==> (final(self).engines().contains(e) <==> old(self).engines().contains(e)),
            r@ == old(self).peer_list().map_values(|e: (u64, PeerConsensus)| e.0),
            final(self).peer_list() == old(self).peer_list(),
            final(self).known() == old(self).known(),
            forall|c: u64| #[trigger] final(self).kept(c) == old(self).kept(c),
    {
        let mut found = false;
        let mut i: usize = 0;
        while i < self.validators.len()
            invariant
                0 <= i <= self.validators@.len(),
                found == exists|j: int| 0 <= j < i && self.validators@[j] == engine_id,
            decreases self.validators@.len() - i,
        {
            if self.validators[i] == engine_id {
                found = true;
            }
            i = i + 1;
        }
        if !found {
            let ghost v0 = self.validators@;
            self.validators.push(engine_id);
            proof {
                assert(self.validators@[self.validators@.len() - 1] == engine_id);
                assert forall|e: u32| e != engine_id implies (self.validators@.contains(e)
                    <==> v0.contains(e)) by {
                    if self.validators@.contains(e) {
                        let j = choose|j: int| 0 <= j < self.validators@.len() && self.validators@[j] == e;
                        assert(j < v0.len());
                        assert(v0[j] == e);
                    }
                    if v0.contains(e) {
                        let j = choose|j: int| 0 <= j < v0.len() && v0[j] == e;
                        assert(self.validators@[j] == e);
                    }
                }
            }
        } else {
            proof {
                let j = choose|j: int| 0 <= j < i && self.validators@[j] == engine_id;
                assert(self.validators@[j] == engine_id);
            }
        }
        let mut r: Vec<u64> = Vec::new();
        let mut k: usize = 0;
        while k < self.peers.len()
            invariant
                0 <= k <= self.peers@.len(),
                r@ == self.peers@.take(k as int).map_values(|e: (u64, PeerConsensus)| e.0),
            decreases self.peers@.len() - k,
        {
            r.push(self.peers[k].0);
            proof {
                assert(self.peers@.take(k + 1).map_values(|e: (u64, PeerConsensus)| e.0)
                    =~= self.peers@.take(k as int).map_values(|e: (u64, PeerConsensus)| e.0).push(
                    self.peers@[k as int].0,
                ));
            }
            k = k + 1;
        }
        assert(self.peers@.take(k as int) =~= self.peers@);
        r
    }

    fn index_of_peer(&self, who: u64) -> (r: Option<usize>)
        requires
            distinct_keys(self.peers@),
        ensures
            match r {
                Some(i) => i < self.peers@.len() && self.peers@[i as int].0 == who && find_opt(
                    self.peers@,
                    who,
                ) == Some(self.peers@[i as int].1),
                None => find_opt(self.peers@, who) is None && forall|j: int|
                    0 <= j < self.peers@.len() ==> self.peers@[j].0 != who,
            },
    {
        let mut i: usize = 0;
        while i < self.peers.len()
            invariant
                distinct_keys(self.peers@),
                0 <= i <= self.peers@.len(),
                forall|j: int| 0 <= j < i ==> self.peers@[j].0 != who,
            decreases self.peers@.len() - i,
        {
            if self.peers[i].0 == who {
                proof {
                    lemma_find_at(self.peers@, i as int);
                }
                return Some(i);
            }
            i = i + 1;
        }
        proof {
            lemma_find_absent(self.peers@, who);
        }
        None
    }

    /// Registers a newly connected peer with an empty cache; light nodes
    /// are not gossip targets. Returns whether the peer was registered, in
    /// which case the validators are to be told of it.
    pub fn new_peer(&mut self, who: u64, is_full: bool) -> (r: bool)
        requires
            old(self).wf(),
        ensures
            final(self).wf(),
            r == is_full,
            !is_full ==> final(self).peer_list() == old(self).peer_list(),
            is_full ==> final(self).known_by(who) == Some(Set::<u64>::empty()),
            forall|p: u64| p != who ==> #[trigger] final(self).known_by(p) == old(self).known_by(p),
            final(self).known() == old(self).known(),
            forall|c: u64| #[trigger] final(self).kept(c) == old(self).kept(c),
            final(self).engines() == old(self).engines(),
            final(self).me() == old(self).me(),
    {
        if !is_full {
            return false;
        }
        let fresh = PeerConsensus { known_messages: cache_new(KNOWN_MESSAGES_CACHE_SIZE) };
        let ghost fresh_v = fresh;
        let ghost before = self.peers@;
        match self.index_of_peer(who) {
            Some(i) => {
                self.peers.set(i, (who, fresh));
                proof {
                    lemma_set_at(before, i as int, fresh_v);
                    assert forall|p: u64| p != who implies #[trigger] self.known_by(p) == old(self).known_by(p) by {
                        assert(find_opt(self.peers@, p) == find_opt(before, p));
                    }
                    assert(find_opt(self.peers@, who) == Some(fresh_v));
                }
            },
            None => {
                self.peers.push((who, fresh));
                proof {
                    lemma_push_new(before, who, fresh_v);
                    assert forall|p: u64| p != who implies #[trigger] self.known_by(p) == old(self).known_by(p) by {
                        assert(find_opt(self.peers@, p) == find_opt(before, p));
                    }
                    assert(find_opt(self.peers@, who) == Some(fresh_v));
                }
            },
        }
        true
    }

    /// Stops tracking the gossip status of a peer that disconnected: it is
    /// no gossip target any more, until it connects again.
    pub fn peer_disconnected(&mut self, who: u64)
        requires
            old(self).wf(),
        ensures
            final(self).wf(),
            final(self).known_by(who) is None,
            forall|p: u64| p != who ==> #[trigger] final(self).known_by(p) == old(self).known_by(p),
            final(self).known() == old(self).known(),
            forall|c: u64| #[trigger] final(self).kept(c) == old(self).kept(c),
            final(self).engines() == old(self).engines(),
            final(self).me() == old(self).me(),
    {
        let ghost before = self.peers@;
        match self.index_of_peer(who) {
            Some(i) => {
                self.peers.remove(i);
                proof {
                    lemma_remove_at(before, i as int);
                    assert(self.peers@ == before.remove(i as int));
                    assert forall|p: u64| p != who implies #[trigger] self.known_by(p) == old(self).known_by(p) by {
                        assert(find_opt(self.peers@, p) == find_opt(before, p));
                    }
                    assert(find_opt(self.peers@, who) is None);
                }
            },
            None => {},
        }
    }

    fn index_of_cell(&self, cell: u64) -> (r: Option<usize>)
        requires
            distinct_keys(self.messages@),
        ensures
            match r {
                Some(i) => i < self.messages@.len() && self.messages@[i as int].0 == cell
                    && find_opt(self.messages@, cell) == Some(self.messages@[i as int].1),
                None => find_opt(self.messages@, cell) is None && forall|j: int|
                    0 <= j < self.messages@.len() ==> self.messages@[j].0 != cell,
            },
    {
        let mut i: usize = 0;
        while i < self.messages.len()
            invariant
                distinct_keys(self.messages@),
                0 <= i <= self.messages@.len(),
                forall|j: int| 0 <= j < i ==> self.messages@[j].0 != cell,
            decreases self.messages@.len() - i,
        {
            if self.messages[i].0 == cell {
                proof {
                    lemma_find_at(self.messages@, i as int);
                }
                return Some(i);
            }
            i = i + 1;
        }
        proof {
            lemma_find_absent(self.messages@, cell);
        }
        None
    }

    /// Keeps `message` under topic `cell`, replacing what was kept there,
    /// and remembers its hash as known.
    pub fn register_message_hashed(
        &mut self,
        message_hash: u64,
        cell: u64,
        engine_id: u32,
        message: Vec<u8>,
    )
        requires
            old(self).wf(),
        ensures
            final(self).wf(),
            forall|c: u64| #[trigger]
                final(self).kept(c) == if c == cell {
                    Some((message_hash, engine_id, message@))
                } else {
                    old(self).kept(c)
                },
            final(self).known().contains(message_hash),
            forall|x: u64| final(self).known().contains(x) ==> old(self).known().contains(x) || x
                == message_hash,
            final(self).peer_list() == old(self).peer_list(),
            final(self).engines() == old(self).engines(),
            final(self).me() == old(self).me(),
    {
        let ghost before = self.messages@;
        let ghost msg_view = message@;
        let entry = MessageEntry { message_hash, cell, engine_id, message };
        let ghost entry_v = entry;
        match self.index_of_cell(cell) {
            Some(i) => {
                self.messages.set(i, (cell, entry));
                proof {
                    lemma_set_at(before, i as int, entry_v);
                }
            },
            None => {
                self.messages.push((cell, entry));
                proof {
                    lemma_push_new(before, cell, entry_v);
                }
            },
        }
        proof {
            assert forall|c: u64| #[trigger]
                self.kept(c) == if c == cell {
                    Some((message_hash, engine_id, msg_view))
                } else {
                    old(self).kept(c)
                } by {
                assert(find_opt(self.messages@, c) == if c == cell {
                    Some(entry_v)
                } else {
                    find_opt(before, c)
                });
            }
        }
        let ghost k0 = cached(self.known_messages);
        cache_put(&mut self.known_messages, message_hash);
        proof {
            lemma_put_holds(k0, cached(self.known_messages), message_hash, capacity(self.known_messages));
        }
    }

    /// The message kept under topic `cell`.
    pub fn get_kept(&self, cell: u64) -> (r: Option<Vec<u8>>)
        requires
            self.wf(),
        ensures
            match self.kept(cell) {
                Some((_, _, m)) => r is Some && r.unwrap()@ == m,
                None => r is None,
            },
    {
        match self.index_of_cell(cell) {
            Some(i) => {
                let m = &self.messages[i].1.message;
                let mut out: Vec<u8> = Vec::new();
                let mut k: usize = 0;
                while k < m.len()
                    invariant
                        0 <= k <= m@.len(),
                        out@ == m@.take(k as int),
                    decreases m@.len() - k,
                {
                    out.push(m[k]);
                    proof {
                        assert(m@.take(k + 1) =~= m@.take(k as int).push(m@[k as int]));
                    }
                    k = k + 1;
                }
                assert(m@.take(k as int) =~= m@);
                Some(out)
            },
            None => None,
        }
    }

    /// Marks the message as known to every eligible peer and returns them,
    /// in registry order.
    fn mark_targets(&mut self, chosen: &Vec<u64>, excluding: bool, hash: u64, send_to_known: bool) -> (r:
        Vec<u64>)
        requires
            old(self).wf(),
        ensures
            final(self).wf(),
            final(self).same_but_peer_caches(old(self)),
            final(self).marked(old(self), r@, hash),
            r@ == eligible(old(self).peer_list(), chosen@, excluding, old(self).me(), hash, send_to_known),
            r@.no_duplicates(),
    {
        let ghost ps0 = self.peers@;
        let mut targets: Vec<u64> = Vec::new();
        let mut i: usize = 0;
        while i < self.peers.len()
            invariant
                0 <= i <= ps0.len(),
                self.peers@.len() == ps0.len(),
                distinct_keys(ps0),
                ps0 == old(self).peers@,
                self.messages@ == old(self).messages@,
                self.known_messages == old(self).known_messages,
                self.validators@ == old(self).validators@,
                self.self_id == old(self).self_id,
                forall|j: int| 0 <= j < ps0.len() ==> (#[trigger] self.peers@[j]).0 == ps0[j].0,
                forall|j: int|
                    i <= j < ps0.len() ==> cached((#[trigger] self.peers@[j]).1.known_messages)
                        == cached(ps0[j].1.known_messages),
                targets@ == eligible(
                    ps0.take(i as int),
                    chosen@,
                    excluding,
                    self.self_id,
                    hash,
                    send_to_known,
                ),
                forall|j: int|
                    0 <= j < i ==> {
                        let (id, p) = #[trigger] self.peers@[j];
                        if targets@.contains(id) {
                            &&& cached(p.known_messages).contains(hash)
                            &&& forall|x: u64| cached(p.known_messages).contains(x) ==> cached(
                                ps0[j].1.known_messages,
                            ).contains(x) || x == hash
                        } else {
                            cached(p.known_messages) == cached(ps0[j].1.known_messages)
                        }
                    },
                forall|t: u64| targets@.contains(t) ==> exists|j: int| 0 <= j < i && ps0[j].0 == t,
                targets@.no_duplicates(),
            decreases ps0.len() - i,
        {
            let id = self.peers[i].0;
            let in_chosen = contains_u64(chosen, id);
            let selected = if excluding {
                !in_chosen
            } else {
                in_chosen
            };
            let knows = cache_contains(&self.peers[i].1.known_messages, hash);
            proof {
                assert(ps0.take(i + 1).drop_last() =~= ps0.take(i as int));
                assert(ps0.take(i + 1).last() == ps0[i as int]);
                assert(!targets@.contains(id)) by {
                    if targets@.contains(id) {
                        let j = choose|j: int| 0 <= j < i && ps0[j].0 == id;
                        assert(ps0[j].0 == ps0[i as int].0);
                    }
                }
            }
            if selected && id != self.self_id && (send_to_known || !knows) {
                let ghost before_peers = self.peers@;
                let (pid, mut pc) = self.peers.remove(i);
                let ghost k0 = cached(pc.known_messages);
                cache_put(&mut pc.known_messages, hash);
                proof {
                    lemma_put_holds(k0, cached(pc.known_messages), hash, capacity(pc.known_messages));
                }
                self.peers.insert(i, (pid, pc));
                proof {
                    assert(self.peers@ =~= before_peers.update(i as int, self.peers@[i as int]));
                }
                let ghost t0 = targets@;
                targets.push(id);
                proof {
                    assert forall|j: int|
                        0 <= j < i + 1 implies {
                        let (id2, p) = #[trigger] self.peers@[j];
                        if targets@.contains(id2) {
                            &&& cached(p.known_messages).contains(hash)
                            &&& forall|x: u64| cached(p.known_messages).contains(x) ==> cached(
                                ps0[j].1.known_messages,
                            ).contains(x) || x == hash
                        } else {
                            cached(p.known_messages) == cached(ps0[j].1.known_messages)
                        }
                    } by {
                        if j < i {
                            assert(self.peers@[j] == before_peers[j]);
                            let id2 = self.peers@[j].0;
                            if id2 == id {
                                assert(ps0[j].0 == ps0[i as int].0);
                            }
                            assert(targets@.contains(id2) <==> t0.contains(id2)) by {
                                if targets@.contains(id2) && !t0.contains(id2) {
                                    let k = choose|k: int| 0 <= k < targets@.len() && targets@[k]
                                        == id2;
                                    assert(k == t0.len());
                                }
                                if t0.contains(id2) {
                                    let k = choose|k: int| 0 <= k < t0.len() && t0[k] == id2;
                                    assert(targets@[k] == id2);
                                }
                            }
                        } else {
                            assert(targets@[t0.len() as int] == id);
                        }
                    }
                    assert forall|t: u64| targets@.contains(t) implies exists|j: int|
                        0 <= j < i + 1 && ps0[j].0 == t by {
                        if t == id {
                            assert(ps0[i as int].0 == t);
                        } else {
                            let k = choose|k: int| 0 <= k < targets@.len() && targets@[k] == t;
                            assert(t0[k] == t);
                            assert(t0.contains(t));
                        }
                    }
                }
            } else {
                proof {
                    assert forall|t: u64| targets@.contains(t) implies exists|j: int|
                        0 <= j < i + 1 && ps0[j].0 == t by {
                        let j = choose|j: int| 0 <= j < i && ps0[j].0 == t;
                        assert(0 <= j < i + 1 && ps0[j].0 == t);
                    }
                }
            }
            i = i + 1;
        }
        proof {
            assert(ps0.take(i as int) =~= ps0);
            assert(self.peers@.map_values(|e: (u64, PeerConsensus)| e.0) =~= ps0.map_values(
                |e: (u64, PeerConsensus)| e.0,
            ));
            assert(distinct_keys(self.peers@)) by {
                assert forall|a: int, b: int| 0 <= a < b < self.peers@.len() implies self.peers@[a].0
                    != self.peers@[b].0 by {
                    assert(self.peers@[a].0 == ps0[a].0);
                    assert(self.peers@[b].0 == ps0[b].0);
                }
            }
        }
        targets
    }

    /// Sends a message to every peer but those in `except`: returns the
    /// peers it goes to and the exclusion route it carries.
    pub fn broadcast_except(
        &mut self,
        except: Vec<u64>,
        message_hash: u64,
        do_expand: bool,
        send_to_known: bool,
    ) -> (r: (Vec<u64>, Vec<u64>))
        requires
            old(self).wf(),
            except@.no_duplicates(),
        ensures
            final(self).wf(),
            final(self).same_but_peer_caches(old(self)),
            final(self).marked(old(self), r.0@, message_hash),
            r.0@ == eligible(old(self).peer_list(), except@, true, old(self).me(), message_hash, send_to_known),
            r.1@ == broadcast_route(except@, old(self).me(), r.0@, do_expand),
    {
        let targets = self.mark_targets(&except, true, message_hash, send_to_known);
        let mut route = except;
        if do_expand {
            if route.len() < MAX_NUM_SET && !contains_u64(&route, self.self_id) {
                route.push(self.self_id);
            }
            let ghost start = route@;
            let mut i: usize = 0;
            proof {
                assert(targets@.skip(0) =~= targets@);
            }
            while i < targets.len() && route.len() < MAX_NUM_SET
                invariant
                    0 <= i <= targets@.len(),
                    expand(route@, targets@.skip(i as int)) == expand(start, targets@),
                decreases targets@.len() - i,
            {
                proof {
                    assert(targets@.skip(i as int)[0] == targets@[i as int]);
                    assert(targets@.skip(i as int).drop_first() =~= targets@.skip(i + 1));
                }
                if !contains_u64(&route, targets[i]) {
                    route.push(targets[i]);
                }
                i = i + 1;
            }
            proof {
                if i == targets.len() {
                    assert(targets@.skip(i as int).len() == 0);
                }
                assert(expand(route@, targets@.skip(i as int)) == route@);
            }
        }
        (targets, route)
    }

    /// Sends a message to the peers of `set`: returns the peers it goes to
    /// and the route it carries.
    pub fn send_to_set(
        &mut self,
        set: Vec<u64>,
        message_hash: u64,
        do_constrict: bool,
        send_to_known: bool,
    ) -> (r: (Vec<u64>, RoutingInfo))
        requires
            old(self).wf(),
        ensures
            final(self).wf(),
            final(self).same_but_peer_caches(old(self)),
            final(self).marked(old(self), r.0@, message_hash),
            r.0@ == eligible(old(self).peer_list(), set@, false, old(self).me(), message_hash, send_to_known),
            r.1@ == targeted_route(set@, old(self).me(), r.0@, do_constrict),
    {
        let targets = self.mark_targets(&set, false, message_hash, send_to_known);
        let rest = if do_constrict {
            let mut removed = Vec::new();
            let mut k: usize = 0;
            while k < targets.len()
                invariant
                    0 <= k <= targets@.len(),
                    removed@ == targets@.take(k as int),
                decreases targets@.len() - k,
            {
                removed.push(targets[k]);
                proof {
                    assert(targets@.take(k + 1) =~= targets@.take(k as int).push(targets@[k as int]));
                }
                k = k + 1;
            }
            assert(targets@.take(k as int) =~= targets@);
            removed.push(self.self_id);
            let mut out: Vec<u64> = Vec::new();
            let mut i: usize = 0;
            while i < set.len()
                invariant
                    0 <= i <= set@.len(),
                    out@ == without(set@.take(i as int), removed@),
                decreases set@.len() - i,
            {
                proof {
                    assert(set@.take(i + 1).drop_last() =~= set@.take(i as int));
                    assert(set@.take(i + 1).last() == set@[i as int]);
                }
                if !contains_u64(&removed, set[i]) {
                    out.push(set[i]);
                }
                i = i + 1;
            }
            assert(set@.take(i as int) =~= set@);
            out
        } else {
            set
        };
        if rest.len() == 0 {
            (targets, RoutingInfo::Specific)
        } else {
            (targets, RoutingInfo::Targeted(rest))
        }
    }

    /// Whether an incoming message is worth decoding: its raw hash is not
    /// known and a validator is registered for its engine.
    pub fn accepts_incoming(&self, engine_id: u32, pre_hash: u64) -> (r: bool)
        ensures
            r == (!self.known().contains(pre_hash) && self.engines().contains(engine_id)),
    {
        if cache_contains(&self.known_messages, pre_hash) {
            return false;
        }
        let mut i: usize = 0;
        while i < self.validators.len()
            invariant
                0 <= i <= self.validators@.len(),
                !cached(self.known_messages).contains(pre_hash),
                forall|j: int| 0 <= j < i ==> self.validators@[j] != engine_id,
            decreases self.validators@.len() - i,
        {
            if self.validators[i] == engine_id {
                proof {
                    assert(self.validators@[i as int] == engine_id);
                }
                return true;
            }
            i = i + 1;
        }
        false
    }

    /// Routes an incoming message: raw hash `pre_hash`, the routed message
    /// if it decoded, and the hash `message_hash` of its payload. A message
    /// excluding us, or targeted at others only, is passed on; one for us is
    /// to be validated.
    pub fn on_incoming(
        &mut self,
        engine_id: u32,
        pre_hash: u64,
        routed: Option<RoutedMessage>,
        message_hash: u64,
    ) -> (r: IncomingStep)
        requires
            old(self).wf(),
            routed matches Some(rm) && rm.route matches RoutingInfo::BroadcastExclude(ex) ==> ex@.no_duplicates(),
        ensures
            final(self).wf(),
            final(self).same_but_peer_caches(old(self)),
            routed is Some && old(self).ignores_incoming(engine_id, pre_hash, message_hash) ==> r is Ignore
                && final(self).peer_list() == old(self).peer_list(),
            !(!old(self).known().contains(pre_hash) && old(self).engines().contains(engine_id)) ==> r
                is Ignore && final(self).peer_list() == old(self).peer_list(),
            (!old(self).known().contains(pre_hash) && old(self).engines().contains(engine_id)) ==> match routed {
                None => r is Malformed && final(self).peer_list() == old(self).peer_list(),
                Some(rm) => if old(self).known().contains(message_hash) {
                    r is Ignore && final(self).peer_list() == old(self).peer_list()
                } else {
                    match rm.route@ {
                        RouteView::BroadcastExclude(ex) => if ex.contains(old(self).me()) {
                            r matches IncomingStep::Forward(t, route) && t@ == eligible(
                                old(self).peer_list(),
                                ex,
                                true,
                                old(self).me(),
                                message_hash,
                                false,
                            ) && route@ == RouteView::BroadcastExclude(
                                broadcast_route(ex, old(self).me(), t@, true),
                            ) && final(self).marked(old(self), t@, message_hash)
                        } else {
                            r matches IncomingStep::Validate(d) && d@ == rm.msg@
                                && final(self).peer_list() == old(self).peer_list()
                        },
                        RouteView::Targeted(set) => if !set.contains(old(self).me()) {
                            r matches IncomingStep::Forward(t, route) && t@ == eligible(
                                old(self).peer_list(),
                                set,
                                false,
                                old(self).me(),
                                message_hash,
                                false,
                            ) && route@ == targeted_route(set, old(self).me(), t@, true) && final(self).marked(old(self), t@, message_hash)
                        } else {
                            r matches IncomingStep::Validate(d) && d@ == rm.msg@
                                && final(self).peer_list() == old(self).peer_list()
                        },
                        RouteView::Specific => r matches IncomingStep::Validate(d) && d@ == rm.msg@
                            && final(self).peer_list() == old(self).peer_list(),
                    }
                },
            },
    {
        if !self.accepts_incoming(engine_id, pre_hash) {
            return IncomingStep::Ignore;
        }
        let rm = match routed {
            None => {
                return IncomingStep::Malformed;
            },
            Some(rm) => rm,
        };
        if cache_contains(&self.known_messages, message_hash) {
            return IncomingStep::Ignore;
        }
        match rm.route {
            RoutingInfo::BroadcastExclude(excluded) => {
                if contains_u64(&excluded, self.self_id) {
                    let (targets, route) = self.broadcast_except(excluded, message_hash, true, false);
                    IncomingStep::Forward(targets, RoutingInfo::BroadcastExclude(route))
                } else {
                    IncomingStep::Validate(rm.msg)
                }
            },
            RoutingInfo::Targeted(set) => {
                if !contains_u64(&set, self.self_id) {
                    let (targets, route) = self.send_to_set(set, message_hash, true, false);
                    IncomingStep::Forward(targets, route)
                } else {
                    IncomingStep::Validate(rm.msg)
                }
            },
            RoutingInfo::Specific => IncomingStep::Validate(rm.msg),
        }
    }

    /// Applies the validation result of an incoming message. `Punish`
    /// reports the peer it came from. Otherwise a message from a peer that
    /// is not registered is discarded; from a registered peer, `Maintain`
    /// keeps the message under its topic and records the peer as knowing it.
    pub fn on_validated(
        &mut self,
        who: u64,
        engine_id: u32,
        message_hash: u64,
        data: Vec<u8>,
        validation: ValidationResult,
    ) -> (r: IncomingOutcome)
        requires
            old(self).wf(),
        ensures
            final(self).wf(),
            final(self).engines() == old(self).engines(),
            final(self).me() == old(self).me(),
            match validation {
                ValidationResult::Punish(n) => r == IncomingOutcome::Punish(n) && final(self).peer_list() == old(self).peer_list() && final(self).known() == old(self).known()
                    && forall|c: u64| #[trigger] final(self).kept(c) == old(self).kept(c),
                ValidationResult::Discard => r == (if old(self).known_by(who) is Some {
                    IncomingOutcome::Success
                } else {
                    IncomingOutcome::Unregistered
                }) && final(self).peer_list() == old(self).peer_list() && final(self).known()
                    == old(self).known() && forall|c: u64| #[trigger] final(self).kept(c) == old(
                    self,
                ).kept(c),
                ValidationResult::Maintain(_) => old(self).known_by(who) is None ==> {
                    &&& r == IncomingOutcome::Unregistered
                    &&& final(self).peer_list() == old(self).peer_list()
                    &&& final(self).known() == old(self).known()
                    &&& forall|c: u64| #[trigger] final(self).kept(c) == old(self).kept(c)
                },
            },
            match validation {
                ValidationResult::Maintain(cell) => old(self).known_by(who) is Some ==> {
                    &&& r == IncomingOutcome::Success
                    &&& forall|c: u64| #[trigger]
                        final(self).kept(c) == if c == cell {
                            Some((message_hash, engine_id, data@))
                        } else {
                            old(self).kept(c)
                        }
                    &&& final(self).known().contains(message_hash)
                    &&& final(self).known_by(who) is Some
                    &&& final(self).known_by(who).unwrap().contains(message_hash)
                    &&& forall|e: u32, p: u64| #[trigger] final(self).ignores_incoming(e, p, message_hash)
                    &&& forall|p: u64| p != who ==> #[trigger] final(self).known_by(p) == old(self).known_by(p)
                },
                _ => true,
            },
    {
        match validation {
            ValidationResult::Punish(n) => IncomingOutcome::Punish(n),
            ValidationResult::Discard => {
                match self.index_of_peer(who) {
                    Some(_) => IncomingOutcome::Success,
                    None => IncomingOutcome::Unregistered,
                }
            },
            ValidationResult::Maintain(cell) => {
                let ghost before = self.peers@;
                match self.index_of_peer(who) {
                    Some(i) => {
                        let (pid, mut pc) = self.peers.remove(i);
                        let ghost k0 = cached(pc.known_messages);
                        cache_put(&mut pc.known_messages, message_hash);
                        proof {
                            lemma_put_holds(
                                k0,
                                cached(pc.known_messages),
                                message_hash,
                                capacity(pc.known_messages),
                            );
                        }
                        let ghost pc_v = pc;
                        self.peers.insert(i, (pid, pc));
                        proof {
                            assert(self.peers@ =~= before.update(i as int, (before[i as int].0, pc_v)));
                            lemma_set_at(before, i as int, pc_v);
                            assert forall|p: u64| p != who implies #[trigger] self.known_by(p)
                                == old(self).known_by(p) by {
                                assert(find_opt(self.peers@, p) == find_opt(before, p));
                            }
                            assert(find_opt(self.peers@, who) == Some(pc_v));
                        }
                    },
                    None => {
                        return IncomingOutcome::Unregistered;
                    },
                }
                self.register_message_hashed(message_hash, cell, engine_id, data);
                IncomingOutcome::Success
            },
        }
    }

    /// Drops kept messages whose engine has no validator, or whose topic its
    /// validator reports expired.
    pub fn collect_garbage(&mut self, expired: &Vec<u64>)
        requires
            old(self).wf(),
        ensures
            final(self).wf(),
            forall|c: u64| #[trigger]
                final(self).kept(c) == if old(self).kept(c) is Some && old(self).engines().contains(
                    old(self).kept(c).unwrap().1,
                ) && !expired@.contains(c) {
                    old(self).kept(c)
                } else {
                    None
                },
            final(self).peer_list() == old(self).peer_list(),
            final(self).known() == old(self).known(),
            final(self).engines() == old(self).engines(),
            final(self).me() == old(self).me(),
    {
        let ghost orig = self.messages@;
        let ghost engines = self.validators@;
        let mut out: Vec<(u64, MessageEntry)> = Vec::new();
        let ghost mut k: int = 0;
        while self.messages.len() > 0
            invariant
                0 <= k <= orig.len(),
                self.messages@ == orig.skip(k),
                out@ == gc_filter(orig.take(k), engines, expired@),
                engines == self.validators@,
                engines == old(self).validators@,
                orig == old(self).messages@,
                self.peers@ == old(self).peers@,
                self.known_messages == old(self).known_messages,
                self.self_id == old(self).self_id,
            decreases self.messages@.len(),
        {
            let ghost rest = self.messages@;
            let (cell, entry) = self.messages.remove(0);
            proof {
                assert(rest[0] == orig[k]);
                assert(orig.take(k + 1).drop_last() =~= orig.take(k));
                assert(orig.take(k + 1).last() == orig[k]);
                assert(self.messages@ =~= orig.skip(k + 1));
            }
            let mut registered = false;
            let mut j: usize = 0;
            while j < self.validators.len()
                invariant
                    0 <= j <= self.validators@.len(),
                    registered == exists|a: int| 0 <= a < j && self.validators@[a] == entry.engine_id,
                decreases self.validators@.len() - j,
            {
                if self.validators[j] == entry.engine_id {
                    registered = true;
                }
                j = j + 1;
            }
            proof {
                if registered {
                    let a = choose|a: int| 0 <= a < j && self.validators@[a] == entry.engine_id;
                    assert(self.validators@.contains(entry.engine_id)) by {
                        assert(self.validators@[a] == entry.engine_id);
                    }
                }
            }
            if registered && !contains_u64(expired, cell) {
                out.push((cell, entry));
            }
            proof {
                k = k + 1;
            }
        }
        proof {
            assert(orig.take(k) =~= orig);
            lemma_gc_find(orig, engines, expired@);
        }
        self.messages = out;
    }
}

/// Whether garbage collection keeps a message under topic `cell`.
pub open spec fn gc_keep(e: MessageEntry, engines: Seq<u32>, expired: Seq<u64>, cell: u64) -> bool {
    engines.contains(e.engine_id) && !expired.contains(cell)
}

/// The kept messages that garbage collection leaves.
pub open spec fn gc_filter(s: Seq<(u64, MessageEntry)>, engines: Seq<u32>, expired: Seq<u64>) -> Seq<
    (u64, MessageEntry),
>
    decreases s.len(),
{
    if s.len() == 0 {
        Seq::empty()
    } else if gc_keep(s.last().1, engines, expired, s.last().0) {
        gc_filter(s.drop_last(), engines, expired).push(s.last())
    } else {
        gc_filter(s.drop_last(), engines, expired)
    }
}

/// Whether a message with hash `hash` goes to peer entry `e`.
pub open spec fn goes_to(
    e: (u64, PeerConsensus),
    listed: Seq<u64>,
    excluding: bool,
    self_id: u64,
    hash: u64,
    send_to_known: bool,
) -> bool {
    (if excluding {
        !listed.contains(e.0)
    } else {
        listed.contains(e.0)
    }) && e.0 != self_id && (send_to_known || !cached(e.1.known_messages).contains(hash))
}

/// A peer entry the message goes to is among the peers it is sent to.
proof fn lemma_eligible_has(
    ps: Seq<(u64, PeerConsensus)>,
    listed: Seq<u64>,
    excluding: bool,
    self_id: u64,
    hash: u64,
    i: int,
)
    requires
        0 <= i < ps.len(),
        goes_to(ps[i], listed, excluding, self_id, hash, false),
    ensures
        eligible(ps, listed, excluding, self_id, hash, false).contains(ps[i].0),
    decreases ps.len(),
{
    let rest = eligible(ps.drop_last(), listed, excluding, self_id, hash, false);
    if i == ps.len() - 1 {
        assert(eligible(ps, listed, excluding, self_id, hash, false) == rest.push(ps[i].0));
        assert(rest.push(ps[i].0)[rest.len() as int] == ps[i].0);
    } else {
        assert(ps.drop_last()[i] == ps[i]);
        lemma_eligible_has(ps.drop_last(), listed, excluding, self_id, hash, i);
        let k = choose|k: int| 0 <= k < rest.len() && rest[k] == ps[i].0;
        let e = eligible(ps, listed, excluding, self_id, hash, false);
        if goes_to(ps.last(), listed, excluding, self_id, hash, false) {
            assert(e == rest.push(ps.last().0));
            assert(e[k] == ps[i].0);
        } else {
            assert(e == rest);
        }
    }
}

/// Where the message goes to no entry, it is sent to no peer.
proof fn lemma_eligible_none(
    ps: Seq<(u64, PeerConsensus)>,
    listed: Seq<u64>,
    excluding: bool,
    self_id: u64,
    hash: u64,
)
    requires
        forall|i: int| 0 <= i < ps.len() ==> !goes_to(#[trigger] ps[i], listed, excluding, self_id, hash, false),
    ensures
        eligible(ps, listed, excluding, self_id, hash, false).len() == 0,
    decreases ps.len(),
{
    if ps.len() > 0 {
        assert forall|i: int| 0 <= i < ps.drop_last().len() implies !goes_to(
            #[trigger] ps.drop_last()[i],
            listed,
            excluding,
            self_id,
            hash,
            false,
        ) by {
            assert(ps.drop_last()[i] == ps[i]);
        }
        lemma_eligible_none(ps.drop_last(), listed, excluding, self_id, hash);
        assert(!goes_to(ps[ps.len() - 1], listed, excluding, self_id, hash, false));
    }
}

/// A message reaches a peer once: after it went to the peers it was sent
/// to, sending it again to the same listed (or unexcluded) peers, not to
/// those who know it, reaches none.
pub proof fn lemma_sent_once(
    before: ConsensusGossip,
    after: ConsensusGossip,
    listed: Seq<u64>,
    excluding: bool,
    hash: u64,
)
    requires
        after.same_but_peer_caches(&before),
        after.marked(&before, eligible(before.peer_list(), listed, excluding, before.me(), hash, false), hash),
    ensures
        eligible(after.peer_list(), listed, excluding, after.me(), hash, false).len() == 0,
{
    let ps1 = before.peer_list();
    let ps2 = after.peer_list();
    let t = eligible(ps1, listed, excluding, before.me(), hash, false);
    assert forall|i: int| 0 <= i < ps2.len() implies !goes_to(
        #[trigger] ps2[i],
        listed,
        excluding,
        after.me(),
        hash,
        false,
    ) by {
        let ids1 = ps1.map_values(|e: (u64, PeerConsensus)| e.0);
        let ids2 = ps2.map_values(|e: (u64, PeerConsensus)| e.0);
        assert(ids1[i] == ids2[i]);
        assert(ps1[i].0 == ps2[i].0);
        if goes_to(ps1[i], listed, excluding, before.me(), hash, false) {
            lemma_eligible_has(ps1, listed, excluding, before.me(), hash, i);
        }
    }
    lemma_eligible_none(ps2, listed, excluding, after.me(), hash);
}

proof fn lemma_gc_find(s: Seq<(u64, MessageEntry)>, engines: Seq<u32>, expired: Seq<u64>)
    requires
        distinct_keys(s),
    ensures
        distinct_keys(gc_filter(s, engines, expired)),
        forall|i: int|
            0 <= i < gc_filter(s, engines, expired).len() ==> find_opt(
                s,
                (#[trigger] gc_filter(s, engines, expired)[i]).0,
            ) is Some,
        forall|c: u64|
            #![trigger find_opt(gc_filter(s, engines, expired), c)]
            find_opt(gc_filter(s, engines, expired), c) == if find_opt(s, c) is Some && gc_keep(
                find_opt(s, c).unwrap(),
                engines,
                expired,
                c,
            ) {
                find_opt(s, c)
            } else {
                None
            },
    decreases s.len(),
{
    if s.len() > 0 {
        let t = s.drop_last();
        assert(distinct_keys(t)) by {
            assert forall|a: int, b: int| 0 <= a < b < t.len() implies t[a].0 != t[b].0 by {
                assert(t[a] == s[a] && t[b] == s[b]);
            }
        }
        lemma_gc_find(t, engines, expired);
        let r = gc_filter(t, engines, expired);
        let last = s.last();
        assert(last == s[s.len() - 1]);
        assert forall|j: int| 0 <= j < t.len() implies t[j].0 != last.0 by {
            assert(t[j] == s[j]);
        }
        lemma_find_absent(t, last.0);
        if gc_keep(last.1, engines, expired, last.0) {
            let g = r.push(last);
            assert(g == gc_filter(s, engines, expired));
            assert forall|a: int, b: int| 0 <= a < b < g.len() implies g[a].0 != g[b].0 by {
                if b == g.len() - 1 {
                    assert(g[a] == r[a]);
                    assert(find_opt(t, r[a].0) is Some);
                } else {
                    assert(g[a] == r[a] && g[b] == r[b]);
                }
            }
            assert forall|i: int| 0 <= i < g.len() implies find_opt(s, (#[trigger] g[i]).0) is Some by {
                if i == g.len() - 1 {
                    assert(find_opt(s, last.0) == Some(last.1));
                } else {
                    assert(g[i] == r[i]);
                    assert(find_opt(t, r[i].0) is Some);
                    if r[i].0 != last.0 {
                        assert(find_opt(s, r[i].0) == find_opt(t, r[i].0));
                    }
                }
            }
            assert forall|c: u64| #[trigger] find_opt(g, c) == if find_opt(s, c) is Some && gc_keep(
                find_opt(s, c).unwrap(),
                engines,
                expired,
                c,
            ) {
                find_opt(s, c)
            } else {
                None
            } by {
                assert(find_opt(r, c) == if find_opt(t, c) is Some && gc_keep(
                    find_opt(t, c).unwrap(),
                    engines,
                    expired,
                    c,
                ) {
                    find_opt(t, c)
                } else {
                    None
                });
                assert(g.drop_last() =~= r);
            }
        } else {
            assert(r == gc_filter(s, engines, expired));
            assert forall|i: int| 0 <= i < r.len() implies find_opt(s, (#[trigger] r[i]).0) is Some by {
                assert(find_opt(t, r[i].0) is Some);
                if r[i].0 == last.0 {
                    assert(find_opt(s, last.0) == Some(last.1));
                } else {
                    assert(find_opt(s, r[i].0) == find_opt(t, r[i].0));
                }
            }
            assert forall|c: u64| #[trigger] find_opt(r, c) == if find_opt(s, c) is Some && gc_keep(
                find_opt(s, c).unwrap(),
                engines,
                expired,
                c,
            ) {
                find_opt(s, c)
            } else {
                None
            } by {
                assert(find_opt(r, c) == if find_opt(t, c) is Some && gc_keep(
                    find_opt(t, c).unwrap(),
                    engines,
                    expired,
                    c,
                ) {
                    find_opt(t, c)
                } else {
                    None
                });
            }
        }
    }
}

/// The payloads kept for engine `engine`, in order.
pub open spec fn payloads_of(s: Seq<(u64, MessageEntry)>, engine: u32) -> Seq<Seq<u8>>
    decreases s.len(),
{
    if s.len() == 0 {
        Seq::empty()
    } else if s.last().1.engine_id == engine {
        payloads_of(s.drop_last(), engine).push(s.last().1.message@)
    } else {
        payloads_of(s.drop_last(), engine)
    }
}

impl ConsensusGossip {
    pub closed spec fn kept_list(&self) -> Seq<(u64, MessageEntry)> {
        self.messages@
    }

    /// The kept messages of engine `engine_id`, to hand to a new listener.
    pub fn messages_for(&self, engine_id: u32) -> (r: Vec<Vec<u8>>)
        ensures
            r@.map_values(|v: Vec<u8>| v@) == payloads_of(self.kept_list(), engine_id),
    {
        let mut r: Vec<Vec<u8>> = Vec::new();
        let mut i: usize = 0;
        while i < self.messages.len()
            invariant
                0 <= i <= self.messages@.len(),
                r@.map_values(|v: Vec<u8>| v@) == payloads_of(self.messages@.take(i as int), engine_id),
            decreases self.messages@.len() - i,
        {
            proof {
                assert(self.messages@.take(i + 1).drop_last() =~= self.messages@.take(i as int));
                assert(self.messages@.take(i + 1).last() == self.messages@[i as int]);
            }
            if self.messages[i].1.engine_id == engine_id {
                let ghost r0 = r@;
                let c = copy_payload(&self.messages[i].1.message);
                r.push(c);
                proof {
                    assert(r@.map_values(|v: Vec<u8>| v@) =~= r0.map_values(|v: Vec<u8>| v@).push(
                        self.messages@[i as int].1.message@,
                    ));
                }
            }
            i = i + 1;
        }
        assert(self.messages@.take(i as int) =~= self.messages@);
        r
    }
}

fn copy_payload(m: &Vec<u8>) -> (r: Vec<u8>)
    ensures
        r@ == m@,
{
    let mut out: Vec<u8> = Vec::new();
    let mut k: usize = 0;
    while k < m.len()
        invariant
            0 <= k <= m@.len(),
            out@ == m@.take(k as int),
        decreases m@.len() - k,
    {
        out.push(m[k]);
        proof {
            assert(m@.take(k + 1) =~= m@.take(k as int).push(m@[k as int]));
        }
        k = k + 1;
    }
    assert(m@.take(k as int) =~= m@);
    out
}

/// A validator that discards every message.
pub struct DiscardAll;

impl DiscardAll {
    pub fn validate(&self, _sender: u64, _data: &[u8]) -> (r: ValidationResult)
        ensures
            r == ValidationResult::Discard,
    {
        ValidationResult::Discard
    }

    /// Every kept message is expired.
    pub fn message_expired(&self, _topic: u64, _data: &[u8]) -> (r: bool)
        ensures
            r,
    {
        true
    }
}

} // verus!
