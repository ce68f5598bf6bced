//! The runtime's MPC signing registry: signing requests are filed under
//! fresh ids and answered once with a signature that offchain workers
//! produce.
//!
//! Accounts are carried as `u64` handles.

use vstd::prelude::*;
use crate::assoc::{find_opt, distinct_keys, lemma_find_absent, lemma_find_at, lemma_push_new, lemma_remove_at};
use crate::htlc::Origin;
use crate::storage_keys::{get_request_key, u64_le, strictly_sorted};

verus! {

/// A log the registry deposits for the signing service.
pub enum ConsensusLog {
    /// Sign `data` for request `0`.
    RequestForSig(u64, Vec<u8>),
    /// Generate a key for request `0`.
    RequestForKey(u64),
}

/// Registry events.
pub enum MpcEvent {
    MpcRequest(u64, Vec<u8>, u64),
    MpcResponse(u64, Vec<u8>, u64),
}

/// The view of a log.
pub enum ConsensusLogView {
    RequestForSig(u64, Seq<u8>),
    RequestForKey(u64),
}

impl ConsensusLog {
    pub open spec fn view(&self) -> ConsensusLogView {
        match self {
            ConsensusLog::RequestForSig(id, d) => ConsensusLogView::RequestForSig(*id, d@),
            ConsensusLog::RequestForKey(id) => ConsensusLogView::RequestForKey(*id),
        }
    }
}

/// The view of an event: the request id, the data and the account.
pub enum MpcEventView {
    MpcRequest(u64, Seq<u8>, u64),
    MpcResponse(u64, Seq<u8>, u64),
}

impl MpcEvent {
    pub open spec fn view(&self) -> MpcEventView {
        match self {
            MpcEvent::MpcRequest(id, d, w) => MpcEventView::MpcRequest(*id, d@, *w),
            MpcEvent::MpcResponse(id, d, w) => MpcEventView::MpcResponse(*id, d@, *w),
        }
    }
}

/// Reasons a call is refused.
#[derive(Clone, Copy, Debug, PartialEq, Eq, Structural)]
pub enum MpcError {
    BadOrigin,
    RequestIdExists,
    RequestIdMissing,
}

impl MpcError {
    /// The text of the message the runtime reports for this error.
    pub open spec fn message_text(&self) -> Seq<char> {
        match self {
            MpcError::BadOrigin => "bad origin: expected to be a signed origin"@,
            MpcError::RequestIdExists => "req id exists"@,
            MpcError::RequestIdMissing => "req id does not exist"@,
        }
    }

    /// The message the runtime reports for this error.
    pub fn as_str(&self) -> (r: &'static str)
        ensures
            r@ == self.message_text(),
    {
        match self {
            MpcError::BadOrigin => "bad origin: expected to be a signed origin",
            MpcError::RequestIdExists => "req id exists",
            MpcError::RequestIdMissing => "req id does not exist",
        }
    }
}

/// A signing request: its kind, and for signatures the key and the data.
pub enum MpcRequest {
    KeyGen(u64),
    SigGen(u64, u64, Vec<u8>),
}

/// The registry's storage.
pub struct Module {
    authorities: Vec<u64>,
    results: Vec<(u64, Vec<u8>)>,
    requests: Vec<(u64, Vec<u8>)>,
    /// Ids of open requests, ascending.
    pending: Vec<u64>,
    events: Vec<MpcEvent>,
    logs: Vec<ConsensusLog>,
}

/// The byte view of a stored entry.
pub open spec fn bytes_of(v: Option<Vec<u8>>) -> Option<Seq<u8>> {
    match v {
        Some(b) => Some(b@),
        None => None,
    }
}

fn copy_bytes(b: &Vec<u8>) -> (r: Vec<u8>)
    ensures
        r@ == b@,
{
    let mut r: Vec<u8> = Vec::new();
    let mut i: usize = 0;
    while i < b.len()
        invariant
            0 <= i <= b@.len(),
            r@ == b@.take(i as int),
        decreases b@.len() - i,
    {
        r.push(b[i]);
        proof {
            assert(b@.take(i + 1) =~= b@.take(i as int).push(b@[i as int]));
        }
        i = i + 1;
    }
    assert(b@.take(i as int) =~= b@);
    r
}

fn index_of_entry(s: &Vec<(u64, Vec<u8>)>, id: u64) -> (r: Option<usize>)
    requires
        distinct_keys(s@),
    ensures
        match r {
            Some(i) => i < s@.len() && s@[i as int].0 == id && find_opt(s@, id) == Some(
                s@[i as int].1,
            ),
            None => find_opt(s@, id) is None && forall|j: int| 0 <= j < s@.len() ==> s@[j].0 != id,
        },
{
    let mut i: usize = 0;
    while i < s.len()
        invariant
            distinct_keys(s@),
            0 <= i <= s@.len(),
            forall|j: int| 0 <= j < i ==> s@[j].0 != id,
        decreases s@.len() - i,
    {
        if s[i].0 == id {
            proof {
                lemma_find_at(s@, i as int);
            }
            return Some(i);
        }
        i = i + 1;
    }
    proof {
        lemma_find_absent(s@, id);
    }
    None
}

impl Module {
    pub closed spec fn request_of(&self, id: u64) -> Option<Seq<u8>> {
        bytes_of(find_opt(self.requests@, id))
    }

    pub closed spec fn result_of(&self, id: u64) -> Option<Seq<u8>> {
        bytes_of(find_opt(self.results@, id))
    }

    pub closed spec fn pending_view(&self) -> Seq<u64> {
        self.pending@
    }

    pub closed spec fn authorities_view(&self) -> Seq<u64> {
        self.authorities@
    }

    /// The events deposited so far, oldest first.
    pub closed spec fn events_view(&self) -> Seq<MpcEventView> {
        self.events@.map_values(|e: MpcEvent| e@)
    }

    /// The logs deposited so far, oldest first.
    pub closed spec fn logs_view(&self) -> Seq<ConsensusLogView> {
        self.logs@.map_values(|l: ConsensusLog| l@)
    }

    /// The pending ids are exactly the open requests, ascending.
    pub closed spec fn wf(&self) -> bool {
        &&& distinct_keys(self.requests@)
        &&& distinct_keys(self.results@)
        &&& strictly_sorted(self.pending@)
        &&& forall|id: u64| self.pending@.contains(id) <==> find_opt(self.requests@, id) is Some
    }

    /// The outcome of a signing request for `id`.
    pub open spec fn request_outcome(&self, origin: Origin, id: u64) -> Result<(), MpcError> {
        match origin {
            Origin::Signed(_) => if self.request_of(id) is Some || self.result_of(id) is Some {
                Err(MpcError::RequestIdExists)
            } else {
                Ok(())
            },
            _ => Err(MpcError::BadOrigin),
        }
    }

    /// The outcome of answering request `id`.
    pub open spec fn save_outcome(&self, origin: Origin, id: u64) -> Result<(), MpcError> {
        match origin {
            Origin::Signed(_) => if self.request_of(id) is None {
                Err(MpcError::RequestIdMissing)
            } else if self.result_of(id) is Some {
                Err(MpcError::RequestIdExists)
            } else {
                Ok(())
            },
            _ => Err(MpcError::BadOrigin),
        }
    }

    /// Nothing changed.
    pub open spec fn unchanged(&self, other: &Module) -> bool {
        &&& forall|id: u64| #[trigger] self.request_of(id) == other.request_of(id)
        &&& forall|id: u64| #[trigger] self.result_of(id) == other.result_of(id)
        &&& self.pending_view() == other.pending_view()
        &&& self.authorities_view() == other.authorities_view()
        &&& self.events_view() == other.events_view()
        &&& self.logs_view() == other.logs_view()
    }

    pub fn new() -> (r: Module)
        ensures
            r.wf(),
            forall|id: u64| #[trigger] r.request_of(id) is None,
            forall|id: u64| #[trigger] r.result_of(id) is None,
            r.authorities_view().len() == 0,
            r.events_view().len() == 0,
            r.logs_view().len() == 0,
    {
        let r = Module {
            authorities: Vec::new(),
            results: Vec::new(),
            requests: Vec::new(),
            pending: Vec::new(),
            events: Vec::new(),
            logs: Vec::new(),
        };
        proof {
            assert forall|id: u64| #[trigger] r.request_of(id) is None by {
                lemma_find_absent(r.requests@, id);
            }
            assert forall|id: u64| #[trigger] r.result_of(id) is None by {
                lemma_find_absent(r.results@, id);
            }
            assert forall|id: u64| r.pending@.contains(id) <==> find_opt(r.requests@, id) is Some by {
                lemma_find_absent(r.requests@, id);
            }
        }
        r
    }

    /// The data of open request `id`.
    pub fn request_of_exec(&self, id: u64) -> (r: Option<Vec<u8>>)
        requires
            self.wf(),
        ensures
            bytes_of(r) == self.request_of(id),
    {
        match index_of_entry(&self.requests, id) {
            Some(i) => Some(copy_bytes(&self.requests[i].1)),
            None => None,
        }
    }

    /// The signature saved for request `id`.
    pub fn result_of_exec(&self, id: u64) -> (r: Option<Vec<u8>>)
        requires
            self.wf(),
        ensures
            bytes_of(r) == self.result_of(id),
    {
        match index_of_entry(&self.results, id) {
            Some(i) => Some(copy_bytes(&self.results[i].1)),
            None => None,
        }
    }

    /// Whether `who` is an MPC authority.
    pub fn is_authority(&self, who: u64) -> (r: bool)
        ensures
            r == self.authorities_view().contains(who),
    {
        let mut i: usize = 0;
        while i < self.authorities.len()
            invariant
                0 <= i <= self.authorities@.len(),
                forall|j: int| 0 <= j < i ==> self.authorities@[j] != who,
            decreases self.authorities@.len() - i,
        {
            if self.authorities[i] == who {
                return true;
            }
            i = i + 1;
        }
        false
    }

    /// Adds `who` to the authorities unless it is one.
    pub fn add_authority(&mut self, origin: Origin, who: u64) -> (r: Result<(), MpcError>)
        requires
            old(self).wf(),
        ensures
            final(self).wf(),
            r == match origin {
                Origin::Signed(_) => Ok(()),
                _ => Err(MpcError::BadOrigin),
            },
            final(self).authorities_view() == if r is Ok && !old(self).authorities_view().contains(
                who,
            ) {
                old(self).authorities_view().push(who)
            } else {
                old(self).authorities_view()
            },
            forall|id: u64| #[trigger] final(self).request_of(id) == old(self).request_of(id),
            forall|id: u64| #[trigger] final(self).result_of(id) == old(self).result_of(id),
            final(self).pending_view() == old(self).pending_view(),
            final(self).events_view() == old(self).events_view(),
            final(self).logs_view() == old(self).logs_view(),
    {
        match origin {
            Origin::Signed(_) => {},
            _ => {
                return Err(MpcError::BadOrigin);
            },
        }
        if !self.is_authority(who) {
            self.authorities.push(who);
        }
        Ok(())
    }

    /// Files a signing request for `data` under the fresh id `id`.
    pub fn request_sig(&mut self, origin: Origin, id: u64, data: Vec<u8>) -> (r: Result<
        (),
        MpcError,
    >)
        requires
            old(self).wf(),
        ensures
            final(self).wf(),
            r == old(self).request_outcome(origin, id),
            r is Err ==> final(self).unchanged(old(self)),
            r is Ok ==> {
                &&& forall|x: u64| #[trigger]
                    final(self).request_of(x) == if x == id {
                        Some(data@)
                    } else {
                        old(self).request_of(x)
                    }
                &&& forall|x: u64| #[trigger] final(self).result_of(x) == old(self).result_of(x)
                &&& final(self).authorities_view() == old(self).authorities_view()
                &&& origin matches Origin::Signed(w) && final(self).events_view() == old(
                    self,
                ).events_view().push(MpcEventView::MpcRequest(id, data@, w))
                &&& final(self).logs_view() == old(self).logs_view().push(
                    ConsensusLogView::RequestForSig(id, data@),
                )
            },
    {
        let who = match origin {
            Origin::Signed(w) => w,
            _ => {
                return Err(MpcError::BadOrigin);
            },
        };
        if index_of_entry(&self.requests, id).is_some() {
            return Err(MpcError::RequestIdExists);
        }
        if index_of_entry(&self.results, id).is_some() {
            return Err(MpcError::RequestIdExists);
        }
        let ghost reqs0 = self.requests@;
        let ghost pend0 = self.pending@;
        insert_pending(&mut self.pending, id);
        let stored = copy_bytes(&data);
        let ghost stored_v = stored;
        self.requests.push((id, stored));
        proof {
            lemma_push_new(reqs0, id, stored_v);
            assert forall|x: u64| #[trigger] self.request_of(x) == if x == id {
                Some(data@)
            } else {
                old(self).request_of(x)
            } by {}
            assert forall|x: u64|
                self.pending@.contains(x) <==> find_opt(self.requests@, x) is Some by {
                assert(pend0.contains(x) <==> find_opt(reqs0, x) is Some);
            }
        }
        let logged = copy_bytes(&data);
        let ghost l0 = self.logs@;
        let ghost e0 = self.events@;
        self.logs.push(ConsensusLog::RequestForSig(id, logged));
        self.events.push(MpcEvent::MpcRequest(id, data, who));
        proof {
            assert(self.logs@.map_values(|l: ConsensusLog| l@) =~= l0.map_values(|l: ConsensusLog| l@).push(
                ConsensusLogView::RequestForSig(id, data@),
            ));
            assert(self.events@.map_values(|e: MpcEvent| e@) =~= e0.map_values(|e: MpcEvent| e@).push(
                MpcEventView::MpcRequest(id, data@, who),
            ));
        }
        Ok(())
    }

    /// Answers open request `id` with the signature `data`.
    pub fn save_sig(&mut self, origin: Origin, id: u64, data: Vec<u8>) -> (r: Result<
        (),
        MpcError,
    >)
        requires
            old(self).wf(),
        ensures
            final(self).wf(),
            r == old(self).save_outcome(origin, id),
            r is Err ==> final(self).unchanged(old(self)),
            r is Ok ==> {
                &&& forall|x: u64| #[trigger]
                    final(self).request_of(x) == if x == id {
                        None
                    } else {
                        old(self).request_of(x)
                    }
                &&& forall|x: u64| #[trigger]
                    final(self).result_of(x) == if x == id {
                        Some(data@)
                    } else {
                        old(self).result_of(x)
                    }
                &&& final(self).authorities_view() == old(self).authorities_view()
                &&& origin matches Origin::Signed(w) && final(self).events_view() == old(
                    self,
                ).events_view().push(MpcEventView::MpcResponse(id, data@, w))
                &&& final(self).logs_view() == old(self).logs_view()
            },
    {
        let who = match origin {
            Origin::Signed(w) => w,
            _ => {
                return Err(MpcError::BadOrigin);
            },
        };
        let i = match index_of_entry(&self.requests, id) {
            Some(i) => i,
            None => {
                return Err(MpcError::RequestIdMissing);
            },
        };
        if index_of_entry(&self.results, id).is_some() {
            return Err(MpcError::RequestIdExists);
        }
        let ghost reqs0 = self.requests@;
        let ghost res0 = self.results@;
        let ghost pend0 = self.pending@;
        remove_pending(&mut self.pending, id);
        self.requests.remove(i);
        let stored = copy_bytes(&data);
        let ghost stored_v = stored;
        self.results.push((id, stored));
        proof {
            lemma_remove_at(reqs0, i as int);
            lemma_push_new(res0, id, stored_v);
            assert forall|x: u64| #[trigger] self.request_of(x) == if x == id {
                None
            } else {
                old(self).request_of(x)
            } by {}
            assert forall|x: u64| #[trigger] self.result_of(x) == if x == id {
                Some(data@)
            } else {
                old(self).result_of(x)
            } by {}
            assert forall|x: u64|
                self.pending@.contains(x) <==> find_opt(self.requests@, x) is Some by {
                assert(pend0.contains(x) <==> find_opt(reqs0, x) is Some);
            }
        }
        let ghost e0 = self.events@;
        self.events.push(MpcEvent::MpcResponse(id, data, who));
        proof {
            assert(self.events@.map_values(|e: MpcEvent| e@) =~= e0.map_values(|e: MpcEvent| e@).push(
                MpcEventView::MpcResponse(id, data@, who),
            ));
        }
        Ok(())
    }

    /// The open requests in ascending id order, each with the offchain
    /// storage key where the signing service leaves its signature.
    pub fn pending_request_keys(&self) -> (r: Vec<(u64, Vec<u8>)>)
        requires
            self.wf(),
        ensures
            r@.len() == self.pending_view().len(),
            forall|i: int|
                0 <= i < r@.len() ==> (#[trigger] r@[i]).0 == self.pending_view()[i] && r@[i].1@
                    == u64_le(self.pending_view()[i]),
    {
        let mut r: Vec<(u64, Vec<u8>)> = Vec::new();
        let mut i: usize = 0;
        while i < self.pending.len()
            invariant
                0 <= i <= self.pending@.len(),
                r@.len() == i,
                forall|j: int|
                    0 <= j < i ==> (#[trigger] r@[j]).0 == self.pending@[j] && r@[j].1@ == u64_le(
                        self.pending@[j],
                    ),
            decreases self.pending@.len() - i,
        {
            let id = self.pending[i];
            r.push((id, get_request_key(id)));
            i = i + 1;
        }
        r
    }
}

/// Adds `x` to the ascending pending ids.
fn insert_pending(v: &mut Vec<u64>, x: u64)
    requires
        strictly_sorted(old(v)@),
        !old(v)@.contains(x),
    ensures
        strictly_sorted(final(v)@),
        forall|y: u64| final(v)@.contains(y) <==> (old(v)@.contains(y) || y == x),
{
    let ghost s = v@;
    let mut j: usize = 0;
    while j < v.len() && v[j] < x
        invariant
            v@ == s,
            0 <= j <= s.len(),
            forall|a: int| 0 <= a < j ==> s[a] < x,
        decreases s.len() - j,
    {
        j = j + 1;
    }
    v.insert(j, x);
    proof {
        let t = v@;
        assert(t =~= s.insert(j as int, x));
        if j < s.len() {
            assert(s[j as int] != x);
        }
        assert forall|a: int, b: int| 0 <= a < b < t.len() implies t[a] < t[b] by {
            if b < j {
                assert(t[a] == s[a] && t[b] == s[b]);
            } else if b == j {
                assert(t[a] == s[a]);
            } else if a < j {
                assert(t[a] == s[a] && t[b] == s[b - 1]);
                assert(s[j as int] > x);
            } else if a == j {
                assert(t[b] == s[b - 1]);
                assert(s[j as int] > x);
            } else {
                assert(t[a] == s[a - 1] && t[b] == s[b - 1]);
            }
        }
        assert forall|y: u64| t.contains(y) <==> (s.contains(y) || y == x) by {
            if t.contains(y) {
                let k = choose|k: int| 0 <= k < t.len() && t[k] == y;
                if k < j {
                    assert(s[k] == y);
                } else if k > j {
                    assert(s[k - 1] == y);
                }
            }
            if s.contains(y) {
                let k = choose|k: int| 0 <= k < s.len() && s[k] == y;
                if k < j {
                    assert(t[k] == y);
                } else {
                    assert(t[k + 1] == y);
                }
            }
            if y == x {
                assert(t[j as int] == x);
            }
        }
    }
}

/// Drops `x` from the ascending pending ids.
fn remove_pending(v: &mut Vec<u64>, x: u64)
    requires
        strictly_sorted(old(v)@),
    ensures
        strictly_sorted(final(v)@),
        forall|y: u64| final(v)@.contains(y) <==> (old(v)@.contains(y) && y != x),
{
    let ghost s = v@;
    let mut j: usize = 0;
    while j < v.len()
        invariant
            v@ == s,
            s == old(v)@,
            strictly_sorted(s),
            0 <= j <= s.len(),
            forall|a: int| 0 <= a < j ==> s[a] != x,
        decreases s.len() - j,
    {
        if v[j] == x {
            v.remove(j);
            proof {
                let t = v@;
                assert(t =~= s.remove(j as int));
                assert forall|a: int, b: int| 0 <= a < b < t.len() implies t[a] < t[b] by {
                    if a < j {
                        assert(t[a] == s[a]);
                    } else {
                        assert(t[a] == s[a + 1]);
                    }
                    if b < j {
                        assert(t[b] == s[b]);
                    } else {
                        assert(t[b] == s[b + 1]);
                    }
                }
                assert forall|y: u64| t.contains(y) <==> (s.contains(y) && y != x) by {
                    if t.contains(y) {
                        let k = choose|k: int| 0 <= k < t.len() && t[k] == y;
                        if k < j {
                            assert(s[k] == y);
                        } else {
                            assert(s[k + 1] == y);
                            assert(s[j as int] < s[k + 1]);
                        }
                    }
                    if s.contains(y) && y != x {
                        let k = choose|k: int| 0 <= k < s.len() && s[k] == y;
                        if k < j {
                            assert(t[k] == y);
                        } else {
                            assert(k != j);
                            assert(t[k - 1] == y);
                        }
                    }
                }
            }
            return;
        }
        j = j + 1;
    }
}

/// Once request `id` is answered, it can be neither filed nor answered
/// again.
pub proof fn lemma_answer_is_final(m: Module, origin: Origin, id: u64)
    requires
        m.result_of(id) is Some,
    ensures
        m.request_outcome(origin, id) is Err,
        m.save_outcome(origin, id) is Err,
{
}

/// A request can be answered exactly while it is open and unanswered.
pub proof fn lemma_answerable_iff_open(m: Module, who: u64, id: u64)
    ensures
        m.save_outcome(Origin::Signed(who), id) is Ok <==> (m.request_of(id) is Some
            && m.result_of(id) is None),
{
}

} // verus!
