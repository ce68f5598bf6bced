//! Flushing the consensus node's outgoing messages: each goes out as its
//! target says, copies for validators that are not connected wait in
//! per-peer queues until they are, and messages addressed to ourselves are
//! handed back for local processing.
//!
//! Peers, authority keys and topics are carried as `u64` handles.

use vstd::prelude::*;
use crate::peers::Peers;

verus! {

/// Where an outgoing message goes.
pub enum LocalTarget {
    /// To these nodes.
    Nodes(Vec<u64>),
    /// To every node but these.
    AllExcept(Vec<u64>),
    /// Kept under this topic for rebroadcast.
    Keep(u64),
}

/// An encoded outgoing message with its target; `own_session` marks our
/// own session announcement, which is also kept under the session topic.
pub struct Outgoing {
    pub target: LocalTarget,
    pub data: Vec<u8>,
    pub own_session: bool,
}

/// What the network is asked to do.
pub enum Delivery {
    Keep(u64, Vec<u8>),
    SendSingle(u64, Vec<u8>),
    SendToSet(Vec<u64>, Vec<u8>),
    BroadcastExcept(Vec<u64>, Vec<u8>),
}

/// The view of a delivery.
pub enum DeliveryView {
    Keep(u64, Seq<u8>),
    SendSingle(u64, Seq<u8>),
    SendToSet(Seq<u64>, Seq<u8>),
    BroadcastExcept(Seq<u64>, Seq<u8>),
}

impl Delivery {
    pub open spec fn view(&self) -> DeliveryView {
        match self {
            Delivery::Keep(c, d) => DeliveryView::Keep(*c, d@),
            Delivery::SendSingle(p, d) => DeliveryView::SendSingle(*p, d@),
            Delivery::SendToSet(s, d) => DeliveryView::SendToSet(s@, d@),
            Delivery::BroadcastExcept(s, d) => DeliveryView::BroadcastExcept(s@, d@),
        }
    }
}

/// The deliveries of one outgoing message.
pub open spec fn deliveries_of(o: Outgoing, session_cell: u64) -> Seq<DeliveryView> {
    let keep_session = if o.own_session {
        seq![DeliveryView::Keep(session_cell, o.data@)]
    } else {
        Seq::empty()
    };
    keep_session.push(
        match o.target {
            LocalTarget::Keep(cell) => DeliveryView::Keep(cell, o.data@),
            LocalTarget::Nodes(set) => DeliveryView::SendToSet(set@, o.data@),
            LocalTarget::AllExcept(ex) => DeliveryView::BroadcastExcept(ex@, o.data@),
        },
    )
}

/// Whether an outgoing message is also for ourselves.
pub open spec fn for_us(o: Outgoing, my_peer: u64) -> bool {
    match o.target {
        LocalTarget::Keep(_) => false,
        LocalTarget::Nodes(set) => set@.contains(my_peer),
        LocalTarget::AllExcept(ex) => !ex@.contains(my_peer),
    }
}

/// `s` without the members of `r`, in order.
pub open spec fn minus(s: Seq<u64>, r: Seq<u64>) -> Seq<u64>
    decreases s.len(),
{
    if s.len() == 0 {
        Seq::empty()
    } else if r.contains(s.last()) {
        minus(s.drop_last(), r)
    } else {
        minus(s.drop_last(), r).push(s.last())
    }
}

/// The peers a copy of an outgoing message waits for: addressed nodes
/// that are not connected; for a broadcast, the validators it does not
/// exclude that are not connected.
pub open spec fn waiting_peers(o: Outgoing, connected: Seq<u64>, validators: Seq<u64>) -> Seq<u64> {
    match o.target {
        LocalTarget::Keep(_) => Seq::empty(),
        LocalTarget::Nodes(set) => minus(set@, connected),
        LocalTarget::AllExcept(ex) => minus(minus(validators, ex@), connected),
    }
}

/// How often `x` occurs in `s`.
pub open spec fn occurrences(s: Seq<u64>, x: u64) -> nat
    decreases s.len(),
{
    if s.len() == 0 {
        0
    } else {
        occurrences(s.drop_last(), x) + if s.last() == x {
            1nat
        } else {
            0nat
        }
    }
}

/// The copies of `msgs` that wait for peer `q`, in order.
pub open spec fn waiting_for(msgs: Seq<Outgoing>, connected: Seq<u64>, validators: Seq<u64>, q: u64) -> Seq<
    Seq<u8>,
>
    decreases msgs.len(),
{
    if msgs.len() == 0 {
        Seq::empty()
    } else {
        waiting_for(msgs.drop_last(), connected, validators, q) + Seq::new(
            occurrences(waiting_peers(msgs.last(), connected, validators), q),
            |i: int| msgs.last().data@,
        )
    }
}

/// The deliveries of a list of outgoing messages, in order.
pub open spec fn all_deliveries(msgs: Seq<Outgoing>, session_cell: u64) -> Seq<DeliveryView>
    decreases msgs.len(),
{
    if msgs.len() == 0 {
        Seq::empty()
    } else {
        all_deliveries(msgs.drop_last(), session_cell) + deliveries_of(msgs.last(), session_cell)
    }
}

/// The messages handed back for local processing, in order.
pub open spec fn all_for_us(msgs: Seq<Outgoing>, my_peer: u64) -> Seq<Seq<u8>>
    decreases msgs.len(),
{
    if msgs.len() == 0 {
        Seq::empty()
    } else if for_us(msgs.last(), my_peer) {
        all_for_us(msgs.drop_last(), my_peer).push(msgs.last().data@)
    } else {
        all_for_us(msgs.drop_last(), my_peer)
    }
}

/// Where a consensus message goes when it is sent peer by peer.
pub enum DirectTarget {
    /// To these nodes.
    Nodes(Vec<u64>),
    /// To every node but these.
    AllExcept(Vec<u64>),
}

/// An encoded consensus message with its target.
pub struct DirectOutgoing {
    pub target: DirectTarget,
    pub data: Vec<u8>,
}

/// `s` restricted to the members of `r`, in order.
pub open spec fn within(s: Seq<u64>, r: Seq<u64>) -> Seq<u64>
    decreases s.len(),
{
    if s.len() == 0 {
        Seq::empty()
    } else if r.contains(s.last()) {
        within(s.drop_last(), r).push(s.last())
    } else {
        within(s.drop_last(), r)
    }
}

/// The peers a message is sent to at once: the addressed nodes that are
/// connected; for a broadcast, the connected peers it does not exclude,
/// ourselves left out.
pub open spec fn direct_recipients(o: DirectOutgoing, my_peer: u64, connected: Seq<u64>) -> Seq<u64> {
    match o.target {
        DirectTarget::Nodes(set) => within(set@, connected),
        DirectTarget::AllExcept(ex) => minus(minus(connected, ex@), seq![my_peer]),
    }
}

/// The peers a copy of a message waits for: the addressed nodes that are
/// not connected; for a broadcast, the validators that are not among the
/// connected peers it does not exclude.
pub open spec fn direct_waiting(o: DirectOutgoing, connected: Seq<u64>, validators: Seq<u64>) -> Seq<u64> {
    match o.target {
        DirectTarget::Nodes(set) => minus(set@, connected),
        DirectTarget::AllExcept(ex) => minus(validators, minus(connected, ex@)),
    }
}

/// The sends of one message.
pub open spec fn direct_sends(o: DirectOutgoing, my_peer: u64, connected: Seq<u64>) -> Seq<DeliveryView> {
    direct_recipients(o, my_peer, connected).map_values(|p: u64| DeliveryView::SendSingle(p, o.data@))
}

/// The sends of a list of messages, in order.
pub open spec fn all_direct_sends(msgs: Seq<DirectOutgoing>, my_peer: u64, connected: Seq<u64>) -> Seq<
    DeliveryView,
>
    decreases msgs.len(),
{
    if msgs.len() == 0 {
        Seq::empty()
    } else {
        all_direct_sends(msgs.drop_last(), my_peer, connected) + direct_sends(msgs.last(), my_peer, connected)
    }
}

/// The copies of `msgs` that wait for peer `q`, in order.
pub open spec fn direct_waiting_for(msgs: Seq<DirectOutgoing>, connected: Seq<u64>, validators: Seq<u64>, q: u64) -> Seq<
    Seq<u8>,
>
    decreases msgs.len(),
{
    if msgs.len() == 0 {
        Seq::empty()
    } else {
        direct_waiting_for(msgs.drop_last(), connected, validators, q) + Seq::new(
            occurrences(direct_waiting(msgs.last(), connected, validators), q),
            |i: int| msgs.last().data@,
        )
    }
}

/// The queued messages of the connected peers, resent in peer order.
pub open spec fn resent(q: Seq<(u64, Seq<Seq<u8>>)>, connected: Seq<u64>) -> Seq<DeliveryView>
    decreases q.len(),
{
    if q.len() == 0 {
        Seq::empty()
    } else if connected.contains(q.last().0) {
        resent(q.drop_last(), connected) + q.last().1.map_values(
            |m: Seq<u8>| DeliveryView::SendSingle(q.last().0, m),
        )
    } else {
        resent(q.drop_last(), connected)
    }
}

/// The queues, each a peer with the messages waiting for it.
pub struct BadgerGossipValidator {
    pending: Vec<(u64, Vec<Vec<u8>>)>,
}

/// The view of one queue.
pub open spec fn queue_view(e: (u64, Vec<Vec<u8>>)) -> (u64, Seq<Seq<u8>>) {
    (e.0, e.1@.map_values(|m: Vec<u8>| m@))
}

/// The views of a list of queues.
pub open spec fn queues_of(p: Seq<(u64, Vec<Vec<u8>>)>) -> Seq<(u64, Seq<Seq<u8>>)> {
    p.map_values(|e: (u64, Vec<Vec<u8>>)| queue_view(e))
}

/// The messages waiting for `q` in a list of queues.
pub open spec fn queued(s: Seq<(u64, Seq<Seq<u8>>)>, q: u64) -> Seq<Seq<u8>>
    decreases s.len(),
{
    if s.len() == 0 {
        Seq::empty()
    } else if s.last().0 == q {
        s.last().1
    } else {
        queued(s.drop_last(), q)
    }
}

fn copy_data(d: &Vec<u8>) -> (r: Vec<u8>)
    ensures
        r@ == d@,
{
    let mut r: Vec<u8> = Vec::new();
    let mut i: usize = 0;
    while i < d.len()
        invariant
            0 <= i <= d@.len(),
            r@ == d@.take(i as int),
        decreases d@.len() - i,
    {
        r.push(d[i]);
        proof {
            assert(d@.take(i + 1) =~= d@.take(i as int).push(d@[i as int]));
        }
        i = i + 1;
    }
    assert(d@.take(i as int) =~= d@);
    r
}

fn copy_ids(d: &Vec<u64>) -> (r: Vec<u64>)
    ensures
        r@ == d@,
{
    let mut r: Vec<u64> = Vec::new();
    let mut i: usize = 0;
    while i < d.len()
        invariant
            0 <= i <= d@.len(),
            r@ == d@.take(i as int),
        decreases d@.len() - i,
    {
        r.push(d[i]);
        proof {
            assert(d@.take(i + 1) =~= d@.take(i as int).push(d@[i as int]));
        }
        i = i + 1;
    }
    assert(d@.take(i as int) =~= d@);
    r
}

fn contains_id(v: &Vec<u64>, x: u64) -> (r: bool)
    ensures
        r == v@.contains(x),
{
    let mut i: usize = 0;
    while i < v.len()
        invariant
            0 <= i <= v@.len(),
            forall|j: int| 0 <= j < i ==> v@[j] != x,
        decreases v@.len() - i,
    {
        if v[i] == x {
            return true;
        }
        i = i + 1;
    }
    false
}

fn minus_exec(s: &Vec<u64>, r: &Vec<u64>) -> (out: Vec<u64>)
    ensures
        out@ == minus(s@, r@),
{
    let mut out: Vec<u64> = Vec::new();
    let mut i: usize = 0;
    while i < s.len()
        invariant
            0 <= i <= s@.len(),
            out@ == minus(s@.take(i as int), r@),
        decreases s@.len() - i,
    {
        proof {
            assert(s@.take(i + 1).drop_last() =~= s@.take(i as int));
            assert(s@.take(i + 1).last() == s@[i as int]);
        }
        if !contains_id(r, s[i]) {
            out.push(s[i]);
        }
        i = i + 1;
    }
    assert(s@.take(i as int) =~= s@);
    out
}

fn within_exec(s: &Vec<u64>, r: &Vec<u64>) -> (out: Vec<u64>)
    ensures
        out@ == within(s@, r@),
{
    let mut out: Vec<u64> = Vec::new();
    let mut i: usize = 0;
    while i < s.len()
        invariant
            0 <= i <= s@.len(),
            out@ == within(s@.take(i as int), r@),
        decreases s@.len() - i,
    {
        proof {
            assert(s@.take(i + 1).drop_last() =~= s@.take(i as int));
            assert(s@.take(i + 1).last() == s@[i as int]);
        }
        if contains_id(r, s[i]) {
            out.push(s[i]);
        }
        i = i + 1;
    }
    assert(s@.take(i as int) =~= s@);
    out
}

/// The network peers of the validators: our own peer for our own key, the
/// announcing peer for the others; validators without one are left out.
pub fn validator_peers(authorities: &Vec<u64>, my_auth: u64, my_peer: u64, peers: &Peers) -> (r: Vec<u64>)
    requires
        peers.wf(),
    ensures
        r@ == peers_of_validators(authorities@, my_auth, my_peer, *peers),
{
    let mut r: Vec<u64> = Vec::new();
    let mut i: usize = 0;
    while i < authorities.len()
        invariant
            peers.wf(),
            0 <= i <= authorities@.len(),
            r@ == peers_of_validators(authorities@.take(i as int), my_auth, my_peer, *peers),
        decreases authorities@.len() - i,
    {
        proof {
            assert(authorities@.take(i + 1).drop_last() =~= authorities@.take(i as int));
            assert(authorities@.take(i + 1).last() == authorities@[i as int]);
        }
        let a = authorities[i];
        if a == my_auth {
            r.push(my_peer);
        } else {
            match peers.badgerid_to_peerid(a) {
                Some(p) => r.push(p),
                None => {},
            }
        }
        i = i + 1;
    }
    assert(authorities@.take(i as int) =~= authorities@);
    r
}

/// The peers of the validators that have one.
pub open spec fn peers_of_validators(auths: Seq<u64>, my_auth: u64, my_peer: u64, peers: Peers) -> Seq<
    u64,
>
    decreases auths.len(),
{
    if auths.len() == 0 {
        Seq::empty()
    } else {
        let rest = peers_of_validators(auths.drop_last(), my_auth, my_peer, peers);
        if auths.last() == my_auth {
            rest.push(my_peer)
        } else if peers.peer_of(auths.last()) is Some {
            rest.push(peers.peer_of(auths.last()).unwrap())
        } else {
            rest
        }
    }
}

impl BadgerGossipValidator {
    /// The queues.
    pub closed spec fn queues(&self) -> Seq<(u64, Seq<Seq<u8>>)> {
        queues_of(self.pending@)
    }

    /// The messages waiting for peer `q`.
    pub open spec fn waiting(&self, q: u64) -> Seq<Seq<u8>> {
        queued(self.queues(), q)
    }

    /// Each peer has one queue, and queues are in peer order.
    pub closed spec fn wf(&self) -> bool {
        forall|i: int, j: int|
            0 <= i < j < self.pending@.len() ==> self.pending@[i].0 < self.pending@[j].0
    }

    pub fn new() -> (r: BadgerGossipValidator)
        ensures
            r.wf(),
            r.queues().len() == 0,
            forall|q: u64| #[trigger] r.waiting(q).len() == 0,
    {
        let r = BadgerGossipValidator { pending: Vec::new() };
        proof {
            assert(r.queues() =~= Seq::<(u64, Seq<Seq<u8>>)>::empty());
        }
        r
    }

    /// Queues a copy of `data` for each peer of `peers`.
    fn queue_all(&mut self, peers: &Vec<u64>, data: &Vec<u8>)
        requires
            old(self).wf(),
        ensures
            final(self).wf(),
            forall|p: u64| #[trigger]
                final(self).waiting(p) == old(self).waiting(p) + Seq::new(
                    occurrences(peers@, p),
                    |k: int| data@,
                ),
    {
        let mut i: usize = 0;
        while i < peers.len()
            invariant
                self.wf(),
                0 <= i <= peers@.len(),
                forall|p: u64| #[trigger]
                    self.waiting(p) == old(self).waiting(p) + Seq::new(
                        occurrences(peers@.take(i as int), p),
                        |k: int| data@,
                    ),
            decreases peers@.len() - i,
        {
            self.queue(peers[i], data);
            proof {
                assert(peers@.take(i + 1).drop_last() =~= peers@.take(i as int));
                assert(peers@.take(i + 1).last() == peers@[i as int]);
                assert forall|p: u64| #[trigger]
                    self.waiting(p) == old(self).waiting(p) + Seq::new(
                        occurrences(peers@.take(i + 1), p),
                        |k: int| data@,
                    ) by {
                    if p == peers@[i as int] {
                        assert(old(self).waiting(p) + Seq::new(
                            occurrences(peers@.take(i + 1), p),
                            |k: int| data@,
                        ) =~= (old(self).waiting(p) + Seq::new(
                            occurrences(peers@.take(i as int), p),
                            |k: int| data@,
                        )).push(data@));
                    }
                }
            }
            i = i + 1;
        }
        proof {
            assert(peers@.take(i as int) =~= peers@);
        }
    }

    /// Queues a copy of `data` for peer `q`.
    pub fn queue(&mut self, q: u64, data: &Vec<u8>)
        requires
            old(self).wf(),
        ensures
            final(self).wf(),
            forall|p: u64| #[trigger]
                final(self).waiting(p) == if p == q {
                    old(self).waiting(p).push(data@)
                } else {
                    old(self).waiting(p)
                },
    {
        let ghost s0 = self.queues();
        let mut j: usize = 0;
        while j < self.pending.len() && self.pending[j].0 < q
            invariant
                0 <= j <= self.pending@.len(),
                forall|a: int| 0 <= a < j ==> self.pending@[a].0 < q,
            decreases self.pending@.len() - j,
        {
            j = j + 1;
        }
        let copy = copy_data(data);
        if j < self.pending.len() && self.pending[j].0 == q {
            let ghost p0 = self.pending@;
            let (k, mut msgs) = self.pending.remove(j);
            let ghost m0 = msgs@;
            msgs.push(copy);
            let ghost entry = (k, msgs);
            self.pending.insert(j, (k, msgs));
            proof {
                assert(self.pending@ =~= p0.update(j as int, entry));
                assert(queue_view(entry) == (q, queue_view(p0[j as int]).1.push(data@))) by {
                    assert(entry.1@.map_values(|m: Vec<u8>| m@) =~= m0.map_values(|m: Vec<u8>| m@).push(
                        data@,
                    ));
                }
                lemma_queued_update(p0, j as int, entry);
                let s0q = queues_of(p0);
                assert(s0q.update(j as int, s0q[j as int]) =~= s0q);
                lemma_queued_at(s0q, j as int, s0q[j as int], q);
                assert(old(self).waiting(q) == queue_view(p0[j as int]).1);
                assert forall|a: int, b: int|
                    0 <= a < b < self.pending@.len() implies self.pending@[a].0 < self.pending@[b].0 by {
                    assert(self.pending@[a].0 == p0[a].0);
                    assert(self.pending@[b].0 == p0[b].0);
                }
            }
        } else {
            let ghost p0 = self.pending@;
            let mut fresh: Vec<Vec<u8>> = Vec::new();
            fresh.push(copy);
            let ghost entry = (q, fresh);
            self.pending.insert(j, (q, fresh));
            proof {
                assert(self.pending@ =~= p0.insert(j as int, entry));
                assert(queue_view(entry) == (q, seq![data@])) by {
                    assert(entry.1@.map_values(|m: Vec<u8>| m@) =~= seq![data@]);
                }
                if j < p0.len() {
                    assert(p0[j as int].0 > q);
                }
                assert forall|a: int| 0 <= a < p0.len() implies queues_of(p0)[a].0 != q by {
                    if a >= j {
                        assert(p0[a].0 >= p0[j as int].0);
                    }
                }
                lemma_queued_absent(queues_of(p0), q);
                lemma_queued_insert(p0, j as int, entry);
                assert(old(self).waiting(q) =~= Seq::<Seq<u8>>::empty());
            }
        }
    }

    /// Takes the queued messages of the connected peers, in peer order, to
    /// be sent to them one by one.
    pub fn resend(&mut self, connected: &Vec<u64>) -> (r: Vec<Delivery>)
        requires
            old(self).wf(),
        ensures
            final(self).wf(),
            r@.map_values(|d: Delivery| d@) == resent(old(self).queues(), connected@),
            forall|p: u64| #[trigger]
                final(self).waiting(p) == if connected@.contains(p) {
                    Seq::<Seq<u8>>::empty()
                } else {
                    old(self).waiting(p)
                },
    {
        let ghost s0 = self.queues();
        let mut r: Vec<Delivery> = Vec::new();
        let mut i: usize = 0;
        while i < self.pending.len()
            invariant
                0 <= i <= self.pending@.len(),
                self.pending@.len() == old(self).pending@.len(),
                forall|a: int| 0 <= a < self.pending@.len() ==> (#[trigger] self.pending@[a]).0 == old(self).pending@[a].0,
                forall|a: int| i <= a < self.pending@.len() ==> (#[trigger] self.pending@[a]) == old(self).pending@[a],
                forall|a: int|
                    0 <= a < i ==> (#[trigger] queue_view(self.pending@[a])).1 == if connected@.contains(
                        self.pending@[a].0,
                    ) {
                        Seq::<Seq<u8>>::empty()
                    } else {
                        queue_view(old(self).pending@[a]).1
                    },
                s0 == old(self).queues(),
                r@.map_values(|d: Delivery| d@) == resent(s0.take(i as int), connected@),
            decreases self.pending@.len() - i,
        {
            proof {
                assert(s0.take(i + 1).drop_last() =~= s0.take(i as int));
                assert(s0.take(i + 1).last() == s0[i as int]);
            }
            let k = self.pending[i].0;
            if contains_id(connected, k) {
                let ghost p0 = self.pending@;
                let (k2, msgs) = self.pending.remove(i);
                let ghost mv = msgs@;
                let mut m = 0usize;
                let ghost r0 = r@;
                while m < msgs.len()
                    invariant
                        0 <= m <= msgs@.len(),
                        mv == msgs@,
                        r@.map_values(|d: Delivery| d@) == r0.map_values(|d: Delivery| d@) + mv.take(
                            m as int,
                        ).map_values(|x: Vec<u8>| DeliveryView::SendSingle(k2, x@)),
                    decreases msgs@.len() - m,
                {
                    let c = copy_data(&msgs[m]);
                    let ghost rp = r@;
                    r.push(Delivery::SendSingle(k2, c));
                    proof {
                        assert(r@.map_values(|d: Delivery| d@) =~= rp.map_values(|d: Delivery| d@).push(
                            DeliveryView::SendSingle(k2, mv[m as int]@),
                        ));
                        assert(mv.take(m + 1).map_values(|x: Vec<u8>| DeliveryView::SendSingle(k2, x@))
                            =~= mv.take(m as int).map_values(|x: Vec<u8>| DeliveryView::SendSingle(k2, x@)).push(
                            DeliveryView::SendSingle(k2, mv[m as int]@),
                        ));
                        assert(r@.map_values(|d: Delivery| d@) =~= r0.map_values(|d: Delivery| d@)
                            + mv.take(m + 1).map_values(|x: Vec<u8>| DeliveryView::SendSingle(k2, x@)));
                    }
                    m = m + 1;
                }
                proof {
                    assert(mv.take(m as int) =~= mv);
                    assert(mv.map_values(|x: Vec<u8>| DeliveryView::SendSingle(k2, x@)) =~= s0[i as int].1.map_values(
                        |x: Seq<u8>| DeliveryView::SendSingle(s0[i as int].0, x),
                    ));
                }
                let empty: Vec<Vec<u8>> = Vec::new();
                self.pending.insert(i, (k2, empty));
                proof {
                    assert(self.pending@ =~= p0.update(i as int, self.pending@[i as int]));
                    assert(queue_view(self.pending@[i as int]).1 =~= Seq::<Seq<u8>>::empty());
                }
            }
            i = i + 1;
        }
        proof {
            assert(s0.take(i as int) =~= s0);
            assert forall|p: u64| #[trigger]
                self.waiting(p) == if connected@.contains(p) {
                    Seq::<Seq<u8>>::empty()
                } else {
                    old(self).waiting(p)
                } by {
                lemma_queued_cleared(old(self).pending@, self.pending@, connected@, p);
            }
        }
        r
    }

    /// Routes one outgoing message: returns its deliveries and, if it is
    /// also for us, its data; copies wait for the peers that need them.
    pub fn route_outgoing(
        &mut self,
        o: &Outgoing,
        my_peer: u64,
        session_cell: u64,
        connected: &Vec<u64>,
        validators: &Vec<u64>,
    ) -> (r: (Vec<Delivery>, Option<Vec<u8>>))
        requires
            old(self).wf(),
        ensures
            final(self).wf(),
            r.0@.map_values(|d: Delivery| d@) == deliveries_of(*o, session_cell),
            for_us(*o, my_peer) <==> r.1 is Some,
            r.1 matches Some(d) ==> d@ == o.data@,
            forall|p: u64| #[trigger]
                final(self).waiting(p) == old(self).waiting(p) + Seq::new(
                    occurrences(waiting_peers(*o, connected@, validators@), p),
                    |i: int| o.data@,
                ),
    {
        let mut out: Vec<Delivery> = Vec::new();
        if o.own_session {
            out.push(Delivery::Keep(session_cell, copy_data(&o.data)));
        }
        let ghost out0 = out@;
        let mut mine: Option<Vec<u8>> = None;
        let waiting: Vec<u64> = match &o.target {
            LocalTarget::Keep(cell) => {
                out.push(Delivery::Keep(*cell, copy_data(&o.data)));
                Vec::new()
            },
            LocalTarget::Nodes(set) => {
                if contains_id(set, my_peer) {
                    mine = Some(copy_data(&o.data));
                }
                out.push(Delivery::SendToSet(copy_ids(set), copy_data(&o.data)));
                minus_exec(set, connected)
            },
            LocalTarget::AllExcept(ex) => {
                if !contains_id(ex, my_peer) {
                    mine = Some(copy_data(&o.data));
                }
                out.push(Delivery::BroadcastExcept(copy_ids(ex), copy_data(&o.data)));
                let vals = minus_exec(validators, ex);
                minus_exec(&vals, connected)
            },
        };
        proof {
            assert(out@.map_values(|d: Delivery| d@) =~= deliveries_of(*o, session_cell));
            assert(waiting@ == waiting_peers(*o, connected@, validators@));
        }
        self.queue_all(&waiting, &o.data);
        (out, mine)
    }
}

/// The flush plan: what to send, and what to process ourselves.
pub struct FlushPlan {
    pub deliveries: Vec<Delivery>,
    pub self_directed: Vec<Vec<u8>>,
}

impl BadgerGossipValidator {
    /// Flushes outgoing messages: nothing happens when there are none;
    /// otherwise the queues of connected peers are resent first, then each
    /// message is routed in order.
    pub fn flush_message(
        &mut self,
        msgs: &Vec<Outgoing>,
        my_peer: u64,
        session_cell: u64,
        connected: &Vec<u64>,
        validators: &Vec<u64>,
    ) -> (r: FlushPlan)
        requires
            old(self).wf(),
        ensures
            final(self).wf(),
            msgs@.len() == 0 ==> r.deliveries@.len() == 0 && r.self_directed@.len() == 0 && forall|
                p: u64,
            | #[trigger] final(self).waiting(p) == old(self).waiting(p),
            msgs@.len() > 0 ==> {
                &&& r.deliveries@.map_values(|d: Delivery| d@) == resent(old(self).queues(), connected@)
                    + all_deliveries(msgs@, session_cell)
                &&& r.self_directed@.map_values(|d: Vec<u8>| d@) == all_for_us(msgs@, my_peer)
                &&& forall|p: u64| #[trigger]
                    final(self).waiting(p) == (if connected@.contains(p) {
                        Seq::<Seq<u8>>::empty()
                    } else {
                        old(self).waiting(p)
                    }) + waiting_for(msgs@, connected@, validators@, p)
            },
    {
        if msgs.len() == 0 {
            return FlushPlan { deliveries: Vec::new(), self_directed: Vec::new() };
        }
        let mut deliveries = self.resend(connected);
        let ghost mid = *self;
        let ghost d0 = deliveries@.map_values(|d: Delivery| d@);
        let mut mine: Vec<Vec<u8>> = Vec::new();
        let mut i: usize = 0;
        while i < msgs.len()
            invariant
                self.wf(),
                0 <= i <= msgs@.len(),
                deliveries@.map_values(|d: Delivery| d@) == d0 + all_deliveries(msgs@.take(i as int), session_cell),
                mine@.map_values(|d: Vec<u8>| d@) == all_for_us(msgs@.take(i as int), my_peer),
                forall|p: u64| #[trigger]
                    self.waiting(p) == mid.waiting(p) + waiting_for(
                        msgs@.take(i as int),
                        connected@,
                        validators@,
                        p,
                    ),
            decreases msgs@.len() - i,
        {
            proof {
                assert(msgs@.take(i + 1).drop_last() =~= msgs@.take(i as int));
                assert(msgs@.take(i + 1).last() == msgs@[i as int]);
            }
            let ghost before = *self;
            let ghost dv0 = deliveries@.map_values(|d: Delivery| d@);
            let ghost mine0 = mine@.map_values(|d: Vec<u8>| d@);
            let (mut ds, m) = self.route_outgoing(&msgs[i], my_peer, session_cell, connected, validators);
            let ghost ds0 = ds@.map_values(|d: Delivery| d@);
            let ghost dsv = ds@;
            let ghost dl0 = deliveries@;
            deliveries.append(&mut ds);
            proof {
                assert(deliveries@ == dl0 + dsv);
                assert(deliveries@.map_values(|d: Delivery| d@) =~= dv0 + ds0);
                assert(d0 + all_deliveries(msgs@.take(i + 1), session_cell) =~= (d0 + all_deliveries(
                    msgs@.take(i as int),
                    session_cell,
                )) + deliveries_of(msgs@[i as int], session_cell));
            }
            match m {
                Some(d) => {
                    mine.push(d);
                    proof {
                        assert(mine@.map_values(|d: Vec<u8>| d@) =~= mine0.push(msgs@[i as int].data@));
                    }
                },
                None => {},
            }
            proof {
                assert forall|p: u64| #[trigger]
                    self.waiting(p) == mid.waiting(p) + waiting_for(
                        msgs@.take(i + 1),
                        connected@,
                        validators@,
                        p,
                    ) by {
                    assert(self.waiting(p) == before.waiting(p) + Seq::new(
                        occurrences(waiting_peers(msgs@[i as int], connected@, validators@), p),
                        |k: int| msgs@[i as int].data@,
                    ));
                    assert(waiting_for(msgs@.take(i + 1), connected@, validators@, p) == waiting_for(
                        msgs@.take(i as int),
                        connected@,
                        validators@,
                        p,
                    ) + Seq::new(
                        occurrences(waiting_peers(msgs@[i as int], connected@, validators@), p),
                        |k: int| msgs@[i as int].data@,
                    ));
                    assert(mid.waiting(p) + waiting_for(msgs@.take(i + 1), connected@, validators@, p)
                        =~= (mid.waiting(p) + waiting_for(
                        msgs@.take(i as int),
                        connected@,
                        validators@,
                        p,
                    )) + Seq::new(
                        occurrences(waiting_peers(msgs@[i as int], connected@, validators@), p),
                        |k: int| msgs@[i as int].data@,
                    ));
                }
            }
            i = i + 1;
        }
        proof {
            assert(msgs@.take(i as int) =~= msgs@);
        }
        FlushPlan { deliveries, self_directed: mine }
    }
}

impl BadgerGossipValidator {
    /// Sends a consensus message at once to the peers it reaches, and
    /// queues a copy for each peer it waits for.
    pub fn route_direct(
        &mut self,
        o: &DirectOutgoing,
        my_peer: u64,
        connected: &Vec<u64>,
        validators: &Vec<u64>,
    ) -> (r: Vec<Delivery>)
        requires
            old(self).wf(),
        ensures
            final(self).wf(),
            r@.map_values(|d: Delivery| d@) == direct_sends(*o, my_peer, connected@),
            forall|p: u64| #[trigger]
                final(self).waiting(p) == old(self).waiting(p) + Seq::new(
                    occurrences(direct_waiting(*o, connected@, validators@), p),
                    |k: int| o.data@,
                ),
    {
        let (recipients, waiting) = match &o.target {
            DirectTarget::Nodes(set) => (within_exec(set, connected), minus_exec(set, connected)),
            DirectTarget::AllExcept(ex) => {
                let open = minus_exec(connected, ex);
                let mut me: Vec<u64> = Vec::new();
                me.push(my_peer);
                proof {
                    assert(me@ =~= seq![my_peer]);
                }
                (minus_exec(&open, &me), minus_exec(validators, &open))
            },
        };
        let mut out: Vec<Delivery> = Vec::new();
        let mut i: usize = 0;
        while i < recipients.len()
            invariant
                0 <= i <= recipients@.len(),
                out@.map_values(|d: Delivery| d@) == recipients@.take(i as int).map_values(
                    |p: u64| DeliveryView::SendSingle(p, o.data@),
                ),
            decreases recipients@.len() - i,
        {
            let ghost o0 = out@.map_values(|d: Delivery| d@);
            out.push(Delivery::SendSingle(recipients[i], copy_data(&o.data)));
            proof {
                assert(recipients@.take(i + 1) =~= recipients@.take(i as int).push(recipients@[i as int]));
                assert(out@.map_values(|d: Delivery| d@) =~= o0.push(
                    DeliveryView::SendSingle(recipients@[i as int], o.data@),
                ));
                assert(recipients@.take(i + 1).map_values(|p: u64| DeliveryView::SendSingle(p, o.data@))
                    =~= recipients@.take(i as int).map_values(
                    |p: u64| DeliveryView::SendSingle(p, o.data@),
                ).push(DeliveryView::SendSingle(recipients@[i as int], o.data@)));
            }
            i = i + 1;
        }
        proof {
            assert(recipients@.take(i as int) =~= recipients@);
        }
        self.queue_all(&waiting, &o.data);
        out
    }

    /// Flushes consensus messages peer by peer: the queues of connected
    /// peers are resent first, then each message is sent in order.
    pub fn flush_message_either(
        &mut self,
        msgs: &Vec<DirectOutgoing>,
        my_peer: u64,
        connected: &Vec<u64>,
        validators: &Vec<u64>,
    ) -> (r: Vec<Delivery>)
        requires
            old(self).wf(),
        ensures
            final(self).wf(),
            r@.map_values(|d: Delivery| d@) == resent(old(self).queues(), connected@) + all_direct_sends(
                msgs@,
                my_peer,
                connected@,
            ),
            forall|p: u64| #[trigger]
                final(self).waiting(p) == (if connected@.contains(p) {
                    Seq::<Seq<u8>>::empty()
                } else {
                    old(self).waiting(p)
                }) + direct_waiting_for(msgs@, connected@, validators@, p),
    {
        let mut deliveries = self.resend(connected);
        let ghost mid = *self;
        let ghost d0 = deliveries@.map_values(|d: Delivery| d@);
        let mut i: usize = 0;
        while i < msgs.len()
            invariant
                self.wf(),
                0 <= i <= msgs@.len(),
                deliveries@.map_values(|d: Delivery| d@) == d0 + all_direct_sends(
                    msgs@.take(i as int),
                    my_peer,
                    connected@,
                ),
                forall|p: u64| #[trigger]
                    self.waiting(p) == mid.waiting(p) + direct_waiting_for(
                        msgs@.take(i as int),
                        connected@,
                        validators@,
                        p,
                    ),
            decreases msgs@.len() - i,
        {
            proof {
                assert(msgs@.take(i + 1).drop_last() =~= msgs@.take(i as int));
                assert(msgs@.take(i + 1).last() == msgs@[i as int]);
            }
            let ghost before = *self;
            let ghost dv0 = deliveries@.map_values(|d: Delivery| d@);
            let mut ds = self.route_direct(&msgs[i], my_peer, connected, validators);
            let ghost ds0 = ds@.map_values(|d: Delivery| d@);
            let ghost dsv = ds@;
            let ghost dl0 = deliveries@;
            deliveries.append(&mut ds);
            proof {
                assert(deliveries@ == dl0 + dsv);
                assert(deliveries@.map_values(|d: Delivery| d@) =~= dv0 + ds0);
                assert(d0 + all_direct_sends(msgs@.take(i + 1), my_peer, connected@) =~= (d0
                    + all_direct_sends(msgs@.take(i as int), my_peer, connected@)) + direct_sends(
                    msgs@[i as int],
                    my_peer,
                    connected@,
                ));
                assert forall|p: u64| #[trigger]
                    self.waiting(p) == mid.waiting(p) + direct_waiting_for(
                        msgs@.take(i + 1),
                        connected@,
                        validators@,
                        p,
                    ) by {
                    assert(mid.waiting(p) + direct_waiting_for(msgs@.take(i + 1), connected@, validators@, p)
                        =~= (mid.waiting(p) + direct_waiting_for(
                        msgs@.take(i as int),
                        connected@,
                        validators@,
                        p,
                    )) + Seq::new(
                        occurrences(direct_waiting(msgs@[i as int], connected@, validators@), p),
                        |k: int| msgs@[i as int].data@,
                    ));
                }
            }
            i = i + 1;
        }
        proof {
            assert(msgs@.take(i as int) =~= msgs@);
        }
        deliveries
    }
}

proof fn lemma_queued_update(p: Seq<(u64, Vec<Vec<u8>>)>, j: int, e: (u64, Vec<Vec<u8>>))
    requires
        0 <= j < p.len(),
        e.0 == p[j].0,
        forall|a: int, b: int| 0 <= a < b < p.len() ==> p[a].0 < p[b].0,
    ensures
        forall|q: u64| #[trigger]
            queued(queues_of(p.update(j, e)), q) == if q == e.0 {
                queue_view(e).1
            } else {
                queued(queues_of(p), q)
            },
{
    assert forall|q: u64| #[trigger]
        queued(queues_of(p.update(j, e)), q) == if q == e.0 {
            queue_view(e).1
        } else {
            queued(queues_of(p), q)
        } by {
        let s = queues_of(p);
        let u = queues_of(p.update(j, e));
        assert(u =~= s.update(j, queue_view(e)));
        lemma_queued_at(s, j, queue_view(e), q);
    }
}

proof fn lemma_queued_at(s: Seq<(u64, Seq<Seq<u8>>)>, j: int, v: (u64, Seq<Seq<u8>>), q: u64)
    requires
        0 <= j < s.len(),
        v.0 == s[j].0,
        forall|a: int, b: int| 0 <= a < b < s.len() ==> s[a].0 < s[b].0,
    ensures
        queued(s.update(j, v), q) == if q == v.0 {
            v.1
        } else {
            queued(s, q)
        },
    decreases s.len(),
{
    let u = s.update(j, v);
    if j == s.len() - 1 {
        assert(u.drop_last() =~= s.drop_last());
    } else {
        let t = s.drop_last();
        lemma_queued_at(t, j, v, q);
        assert(u.drop_last() =~= t.update(j, v));
        assert(s.last().0 > s[j].0);
        if q == v.0 {
            assert(u.last().0 != q);
        }
    }
}

proof fn lemma_queued_absent(s: Seq<(u64, Seq<Seq<u8>>)>, q: u64)
    requires
        forall|a: int| 0 <= a < s.len() ==> s[a].0 != q,
    ensures
        queued(s, q) == Seq::<Seq<u8>>::empty(),
    decreases s.len(),
{
    if s.len() > 0 {
        assert(s.last() == s[s.len() - 1]);
        lemma_queued_absent(s.drop_last(), q);
    }
}

proof fn lemma_queued_insert(p: Seq<(u64, Vec<Vec<u8>>)>, j: int, e: (u64, Vec<Vec<u8>>))
    requires
        0 <= j <= p.len(),
        forall|a: int| 0 <= a < j ==> p[a].0 < e.0,
        j < p.len() ==> p[j].0 > e.0,
        forall|a: int, b: int| 0 <= a < b < p.len() ==> p[a].0 < p[b].0,
    ensures
        forall|a: int, b: int| 0 <= a < b < p.insert(j, e).len() ==> p.insert(j, e)[a].0 < p.insert(j, e)[b].0,
        forall|q: u64| #[trigger]
            queued(queues_of(p.insert(j, e)), q) == if q == e.0 {
                queue_view(e).1
            } else {
                queued(queues_of(p), q)
            },
    decreases p.len(),
{
    let t = p.insert(j, e);
    assert forall|a: int, b: int| 0 <= a < b < t.len() implies t[a].0 < t[b].0 by {
        if b < j {
            assert(t[a] == p[a] && t[b] == p[b]);
        } else if b == j {
            assert(t[a] == p[a]);
        } else if a < j {
            assert(t[a] == p[a] && t[b] == p[b - 1]);
        } else if a == j {
            assert(t[b] == p[b - 1]);
        } else {
            assert(t[a] == p[a - 1] && t[b] == p[b - 1]);
        }
    }
    let s = queues_of(p);
    let u = queues_of(t);
    if j == p.len() {
        assert(u.drop_last() =~= s);
        assert(u.last() == queue_view(e));
        assert forall|q: u64| #[trigger] queued(u, q) == if q == e.0 {
            queue_view(e).1
        } else {
            queued(s, q)
        } by {}
    } else {
        let pl = p.drop_last();
        assert forall|a: int, b: int| 0 <= a < b < pl.len() implies pl[a].0 < pl[b].0 by {
            assert(pl[a] == p[a] && pl[b] == p[b]);
        }
        assert forall|a: int| 0 <= a < j implies pl[a].0 < e.0 by {
            assert(pl[a] == p[a]);
        }
        if j < pl.len() {
            assert(pl[j] == p[j]);
        }
        lemma_queued_insert(pl, j, e);
        assert(t.drop_last() =~= pl.insert(j, e));
        assert(u.drop_last() =~= queues_of(pl.insert(j, e)));
        assert(s.drop_last() =~= queues_of(pl));
        assert(u.last() == s.last());
        assert(p.last().0 >= p[j].0);
        assert forall|q: u64| #[trigger] queued(u, q) == if q == e.0 {
            queue_view(e).1
        } else {
            queued(s, q)
        } by {
            assert(queued(queues_of(pl.insert(j, e)), q) == if q == e.0 {
                queue_view(e).1
            } else {
                queued(queues_of(pl), q)
            });
        }
    }
}

proof fn lemma_queued_cleared(
    p0: Seq<(u64, Vec<Vec<u8>>)>,
    p1: Seq<(u64, Vec<Vec<u8>>)>,
    connected: Seq<u64>,
    q: u64,
)
    requires
        p1.len() == p0.len(),
        forall|a: int| 0 <= a < p1.len() ==> (#[trigger] p1[a]).0 == p0[a].0,
        forall|a: int|
            0 <= a < p1.len() ==> (#[trigger] queue_view(p1[a])).1 == if connected.contains(p1[a].0) {
                Seq::<Seq<u8>>::empty()
            } else {
                queue_view(p0[a]).1
            },
    ensures
        queued(queues_of(p1), q) == if connected.contains(q) {
            Seq::<Seq<u8>>::empty()
        } else {
            queued(queues_of(p0), q)
        },
    decreases p0.len(),
{
    let s0 = queues_of(p0);
    let s1 = queues_of(p1);
    if p0.len() == 0 {
    } else {
        let n = p0.len() - 1;
        assert(p1.drop_last().len() == p0.drop_last().len());
        assert forall|a: int| 0 <= a < p1.drop_last().len() implies (#[trigger] p1.drop_last()[a]).0
            == p0.drop_last()[a].0 by {
            assert(p1.drop_last()[a] == p1[a]);
            assert(p0.drop_last()[a] == p0[a]);
        }
        assert forall|a: int| 0 <= a < p1.drop_last().len() implies (#[trigger] queue_view(
            p1.drop_last()[a],
        )).1 == if connected.contains(p1.drop_last()[a].0) {
            Seq::<Seq<u8>>::empty()
        } else {
            queue_view(p0.drop_last()[a]).1
        } by {
            assert(p1.drop_last()[a] == p1[a]);
            assert(p0.drop_last()[a] == p0[a]);
        }
        lemma_queued_cleared(p0.drop_last(), p1.drop_last(), connected, q);
        assert(s1.drop_last() =~= queues_of(p1.drop_last()));
        assert(s0.drop_last() =~= queues_of(p0.drop_last()));
        assert(s1.last() == queue_view(p1[n]));
        assert(s0.last() == queue_view(p0[n]));
        assert(p1[n].0 == p0[n].0);
        let _ = queue_view(p1[n]);
    }
}

/// The messages among `ds` sent singly to peer `q`, in order.
pub open spec fn sends_to(ds: Seq<DeliveryView>, q: u64) -> Seq<Seq<u8>>
    decreases ds.len(),
{
    if ds.len() == 0 {
        Seq::empty()
    } else {
        match ds.last() {
            DeliveryView::SendSingle(p, m) => if p == q {
                sends_to(ds.drop_last(), q).push(m)
            } else {
                sends_to(ds.drop_last(), q)
            },
            _ => sends_to(ds.drop_last(), q),
        }
    }
}

proof fn lemma_sends_to_concat(a: Seq<DeliveryView>, b: Seq<DeliveryView>, q: u64)
    ensures
        sends_to(a + b, q) == sends_to(a, q) + sends_to(b, q),
    decreases b.len(),
{
    if b.len() == 0 {
        assert(a + b =~= a);
        assert(sends_to(a, q) + sends_to(b, q) =~= sends_to(a, q));
    } else {
        assert((a + b).drop_last() =~= a + b.drop_last());
        assert((a + b).last() == b.last());
        lemma_sends_to_concat(a, b.drop_last(), q);
        match b.last() {
            DeliveryView::SendSingle(p, m) => {
                if p == q {
                    assert(sends_to(a, q) + sends_to(b.drop_last(), q).push(m) =~= (sends_to(a, q)
                        + sends_to(b.drop_last(), q)).push(m));
                }
            },
            _ => {},
        }
    }
}

proof fn lemma_sends_to_singles(ms: Seq<Seq<u8>>, p: u64, q: u64)
    ensures
        sends_to(ms.map_values(|m: Seq<u8>| DeliveryView::SendSingle(p, m)), q) == if p == q {
            ms
        } else {
            Seq::<Seq<u8>>::empty()
        },
    decreases ms.len(),
{
    let ds = ms.map_values(|m: Seq<u8>| DeliveryView::SendSingle(p, m));
    if ms.len() > 0 {
        assert(ds.drop_last() =~= ms.drop_last().map_values(|m: Seq<u8>| DeliveryView::SendSingle(p, m)));
        assert(ds.last() == DeliveryView::SendSingle(p, ms.last()));
        lemma_sends_to_singles(ms.drop_last(), p, q);
        if p == q {
            assert(ms.drop_last().push(ms.last()) =~= ms);
        }
    } else {
        assert(ds.len() == 0);
    }
}

proof fn lemma_resent_sends(s: Seq<(u64, Seq<Seq<u8>>)>, connected: Seq<u64>, q: u64)
    requires
        forall|a: int, b: int| 0 <= a < b < s.len() ==> s[a].0 < s[b].0,
    ensures
        sends_to(resent(s, connected), q) == if connected.contains(q) {
            queued(s, q)
        } else {
            Seq::<Seq<u8>>::empty()
        },
    decreases s.len(),
{
    if s.len() == 0 {
        assert(resent(s, connected).len() == 0);
    } else {
        let rest = s.drop_last();
        let last = s.last();
        assert forall|a: int, b: int| 0 <= a < b < rest.len() implies rest[a].0 < rest[b].0 by {
            assert(rest[a] == s[a] && rest[b] == s[b]);
        }
        lemma_resent_sends(rest, connected, q);
        if connected.contains(last.0) {
            let part = last.1.map_values(|m: Seq<u8>| DeliveryView::SendSingle(last.0, m));
            lemma_sends_to_concat(resent(rest, connected), part, q);
            lemma_sends_to_singles(last.1, last.0, q);
        }
        if last.0 == q {
            assert forall|a: int| 0 <= a < rest.len() implies rest[a].0 != q by {
                assert(rest[a] == s[a]);
                assert(s[a].0 < s[s.len() - 1].0);
            }
            lemma_queued_absent(rest, q);
            if connected.contains(q) {
                assert(Seq::<Seq<u8>>::empty() + last.1 =~= last.1);
            } else {
                assert(resent(s, connected) == resent(rest, connected));
            }
        } else if connected.contains(last.0) {
            assert(sends_to(resent(rest, connected), q) + Seq::<Seq<u8>>::empty() =~= sends_to(
                resent(rest, connected),
                q,
            ));
        }
    }
}

impl BadgerGossipValidator {
    /// What `resend` sends each peer one by one is exactly what waited for
    /// it, if it is connected, and nothing otherwise.
    pub proof fn lemma_resend_delivers(&self, connected: Seq<u64>, q: u64)
        requires
            self.wf(),
        ensures
            sends_to(resent(self.queues(), connected), q) == if connected.contains(q) {
                self.waiting(q)
            } else {
                Seq::<Seq<u8>>::empty()
            },
    {
        assert forall|a: int, b: int| 0 <= a < b < self.queues().len() implies self.queues()[a].0
            < self.queues()[b].0 by {
            assert(self.queues()[a].0 == self.pending@[a].0);
            assert(self.queues()[b].0 == self.pending@[b].0);
        }
        lemma_resent_sends(self.queues(), connected, q);
    }
}

} // verus!
