//! The runtime's key-generation results module: authorities report the
//! result of a key-generation request once each, with a signature over the
//! report, and new requests are logged for the signing service.
//!
//! Authority keys are carried as `u64` handles.

use vstd::prelude::*;
use crate::assoc::{find_opt, distinct_keys, lemma_find_absent, lemma_find_at, lemma_push_new};
use crate::htlc::Origin;
use crate::storage_keys::{decode_ids, decoded_ids};

verus! {

/// A log the module deposits for the signing service.
pub enum KeygenLog {
    /// Generate a key for request `0`.
    RequestForKeygen(u64, Vec<u8>),
}

impl KeygenLog {
    /// The request a log asks for.
    pub fn try_into_vec(self) -> (r: Option<(u64, Vec<u8>)>)
        ensures
            match self {
                KeygenLog::RequestForKeygen(id, d) => r matches Some((i, e)) && i == id && e@ == d@,
            },
    {
        match self {
            KeygenLog::RequestForKeygen(id, d) => Some((id, d)),
        }
    }
}

/// An authority's report of a request's result; `our_auth_index` is the
/// reporter's place among the authorities.
pub struct KeygenResult {
    pub req_id: u64,
    pub result_data: Option<Vec<u8>>,
    pub our_auth_index: u32,
}

/// Reasons a call is refused.
#[derive(Clone, Copy, Debug, PartialEq, Eq, Structural)]
pub enum KeygenError {
    BadOrigin,
    NoPublicKey,
    AlreadySet,
    InvalidSignature,
    DuplicateRequest,
}

impl KeygenError {
    /// The text of the message the runtime reports for this error.
    pub open spec fn message_text(&self) -> Seq<char> {
        match self {
            KeygenError::BadOrigin => "bad origin: expected to be no origin"@,
            KeygenError::NoPublicKey => "Non existent public key."@,
            KeygenError::AlreadySet => "This result was already set"@,
            KeygenError::InvalidSignature => "Invalid result signature."@,
            KeygenError::DuplicateRequest => "Duplicate request ID"@,
        }
    }

    /// The message the runtime reports for this error.
    pub fn as_str(&self) -> (r: &'static str)
        ensures
            r@ == self.message_text(),
    {
        match self {
            KeygenError::BadOrigin => "bad origin: expected to be no origin",
            KeygenError::NoPublicKey => "Non existent public key.",
            KeygenError::AlreadySet => "This result was already set",
            KeygenError::InvalidSignature => "Invalid result signature.",
            KeygenError::DuplicateRequest => "Duplicate request ID",
        }
    }
}

/// The byte view of an optional result.
pub open spec fn data_view(d: Option<Vec<u8>>) -> Option<Seq<u8>> {
    match d {
        Some(b) => Some(b@),
        None => None,
    }
}

/// The module's storage.
pub struct Module {
    /// The authorities, in order.
    keys: Vec<u64>,
    test: u64,
    /// Requests logged so far, with their results.
    request_results: Vec<(u64, Option<[u8; 32]>)>,
    /// Reported results by authority and request.
    votes: Vec<((u64, u64), Option<Vec<u8>>)>,
    logs: Vec<KeygenLog>,
}

impl Module {
    /// The result authority `auth` reported for request `req`, if any.
    pub closed spec fn vote(&self, auth: u64, req: u64) -> Option<Option<Seq<u8>>> {
        match find_opt(self.votes@, (auth, req)) {
            Some(d) => Some(data_view(d)),
            None => None,
        }
    }

    /// The authorities, in order.
    pub closed spec fn keys_view(&self) -> Seq<u64> {
        self.keys@
    }

    pub closed spec fn test_value(&self) -> u64 {
        self.test
    }

    /// Whether request `req` was logged.
    pub closed spec fn requested(&self, req: u64) -> bool {
        find_opt(self.request_results@, req) is Some
    }

    /// The logged requests and their data, in order.
    pub closed spec fn log_view(&self) -> Seq<(u64, Seq<u8>)> {
        self.logs@.map_values(|l: KeygenLog| match l {
            KeygenLog::RequestForKeygen(i, d) => (i, d@),
        })
    }

    pub closed spec fn wf(&self) -> bool {
        &&& distinct_keys(self.votes@)
        &&& distinct_keys(self.request_results@)
    }

    /// A module with these authorities, no requests and no reports.
    pub fn new(keys: Vec<u64>) -> (r: Module)
        ensures
            r.wf(),
            r.keys_view() == keys@,
            r.test_value() == 0,
            forall|a: u64, q: u64| #[trigger] r.vote(a, q) is None,
            forall|q: u64| !#[trigger] r.requested(q),
            r.log_view().len() == 0,
    {
        let r = Module {
            keys,
            test: 0,
            request_results: Vec::new(),
            votes: Vec::new(),
            logs: Vec::new(),
        };
        proof {
            assert forall|a: u64, q: u64| #[trigger] r.vote(a, q) is None by {
                lemma_find_absent(r.votes@, (a, q));
            }
            assert forall|q: u64| !#[trigger] r.requested(q) by {
                lemma_find_absent(r.request_results@, q);
            }
        }
        r
    }

    /// The authorities.
    pub fn keys(&self) -> (r: Vec<u64>)
        ensures
            r@ == self.keys_view(),
    {
        let mut r: Vec<u64> = Vec::new();
        let mut i: usize = 0;
        while i < self.keys.len()
            invariant
                0 <= i <= self.keys@.len(),
                r@ == self.keys@.take(i as int),
            decreases self.keys@.len() - i,
        {
            r.push(self.keys[i]);
            proof {
                assert(self.keys@.take(i + 1) =~= self.keys@.take(i as int).push(self.keys@[i as int]));
            }
            i = i + 1;
        }
        assert(self.keys@.take(i as int) =~= self.keys@);
        r
    }

    pub fn test(&self) -> (r: u64)
        ensures
            r == self.test_value(),
    {
        self.test
    }

    /// The result authority `auth` reported for request `req`, if any.
    pub fn vote_of(&self, auth: u64, req: u64) -> (r: Option<Option<Vec<u8>>>)
        requires
            self.wf(),
        ensures
            match self.vote(auth, req) {
                Some(d) => r matches Some(x) && data_view(x) == d,
                None => r is None,
            },
    {
        let mut i: usize = 0;
        while i < self.votes.len()
            invariant
                distinct_keys(self.votes@),
                0 <= i <= self.votes@.len(),
                forall|j: int| 0 <= j < i ==> self.votes@[j].0 != (auth, req),
            decreases self.votes@.len() - i,
        {
            let (k, d) = &self.votes[i];
            if k.0 == auth && k.1 == req {
                proof {
                    lemma_find_at(self.votes@, i as int);
                }
                return Some(match d {
                    Some(b) => Some(copy_bytes(b)),
                    None => None,
                });
            }
            i = i + 1;
        }
        proof {
            lemma_find_absent(self.votes@, (auth, req));
        }
        None
    }

    /// Marks the module as reached by an offchain call.
    pub fn set_test(&mut self)
        ensures
            final(self).test_value() == 10,
            final(self).keys_view() == old(self).keys_view(),
            final(self).wf() == old(self).wf(),
            forall|a: u64, q: u64| #[trigger] final(self).vote(a, q) == old(self).vote(a, q),
            forall|q: u64| #[trigger] final(self).requested(q) == old(self).requested(q),
            final(self).log_view() == old(self).log_view(),
    {
        self.test = 10;
    }

    fn has_vote(&self, auth: u64, req: u64) -> (r: bool)
        requires
            self.wf(),
        ensures
            r == self.vote(auth, req) is Some,
    {
        let mut i: usize = 0;
        while i < self.votes.len()
            invariant
                distinct_keys(self.votes@),
                0 <= i <= self.votes@.len(),
                forall|j: int| 0 <= j < i ==> self.votes@[j].0 != (auth, req),
            decreases self.votes@.len() - i,
        {
            let (k, _) = &self.votes[i];
            if k.0 == auth && k.1 == req {
                proof {
                    lemma_find_at(self.votes@, i as int);
                }
                return true;
            }
            i = i + 1;
        }
        proof {
            lemma_find_absent(self.votes@, (auth, req));
        }
        false
    }

    fn is_requested(&self, req: u64) -> (r: bool)
        requires
            self.wf(),
        ensures
            r == self.requested(req),
    {
        let mut i: usize = 0;
        while i < self.request_results.len()
            invariant
                distinct_keys(self.request_results@),
                0 <= i <= self.request_results@.len(),
                forall|j: int| 0 <= j < i ==> self.request_results@[j].0 != req,
            decreases self.request_results@.len() - i,
        {
            if self.request_results[i].0 == req {
                proof {
                    lemma_find_at(self.request_results@, i as int);
                }
                return true;
            }
            i = i + 1;
        }
        proof {
            lemma_find_absent(self.request_results@, req);
        }
        false
    }

    /// The outcome of a report by the authority at `index` for request
    /// `req`, whose signature verifies as `signature_valid` says.
    pub open spec fn report_outcome(&self, origin: Origin, index: u32, req: u64, signature_valid: bool) -> Result<
        (),
        KeygenError,
    > {
        if !(origin is Unsigned) {
            Err(KeygenError::BadOrigin)
        } else if index >= self.keys_view().len() {
            Err(KeygenError::NoPublicKey)
        } else if self.vote(self.keys_view()[index as int], req) is Some {
            Err(KeygenError::AlreadySet)
        } else if !signature_valid {
            Err(KeygenError::InvalidSignature)
        } else {
            Ok(())
        }
    }

    /// Records an authority's report of a request's result, once; the call
    /// comes without origin, and `signature_valid` says whether the report's
    /// signature verifies under the key of the authority it names.
    pub fn report_result(&mut self, origin: Origin, result: KeygenResult, signature_valid: bool) -> (r: Result<
        (),
        KeygenError,
    >)
        requires
            old(self).wf(),
        ensures
            final(self).wf(),
            r == old(self).report_outcome(origin, result.our_auth_index, result.req_id, signature_valid),
            final(self).keys_view() == old(self).keys_view(),
            final(self).test_value() == old(self).test_value(),
            forall|q: u64| #[trigger] final(self).requested(q) == old(self).requested(q),
            final(self).log_view() == old(self).log_view(),
            forall|a: u64, q: u64| #[trigger]
                final(self).vote(a, q) == if r is Ok && a == old(self).keys_view()[result.our_auth_index as int]
                    && q == result.req_id {
                    Some(data_view(result.result_data))
                } else {
                    old(self).vote(a, q)
                },
    {
        match origin {
            Origin::Unsigned => {},
            _ => {
                return Err(KeygenError::BadOrigin);
            },
        }
        let idx = result.our_auth_index as usize;
        if idx >= self.keys.len() {
            return Err(KeygenError::NoPublicKey);
        }
        let public = self.keys[idx];
        if self.has_vote(public, result.req_id) {
            return Err(KeygenError::AlreadySet);
        }
        if !signature_valid {
            return Err(KeygenError::InvalidSignature);
        }
        let ghost before = self.votes@;
        let ghost data = result.result_data;
        let key = (public, result.req_id);
        self.votes.push((key, result.result_data));
        proof {
            assert forall|i: int| 0 <= i < before.len() implies before[i].0 != key by {
                if before[i].0 == key {
                    lemma_find_at(before, i as int);
                }
            }
            lemma_push_new(before, key, data);
        }
        Ok(())
    }

    /// Logs a request for key `req_id`, once; the caller signs it.
    pub fn send_log(&mut self, origin: Origin, req_id: u64) -> (r: Result<(), KeygenError>)
        requires
            old(self).wf(),
        ensures
            final(self).wf(),
            r == match origin {
                Origin::Signed(_) => if old(self).requested(req_id) {
                    Err(KeygenError::DuplicateRequest)
                } else {
                    Ok(())
                },
                _ => Err(KeygenError::BadOrigin),
            },
            final(self).keys_view() == old(self).keys_view(),
            final(self).test_value() == old(self).test_value(),
            forall|a: u64, q: u64| #[trigger] final(self).vote(a, q) == old(self).vote(a, q),
            forall|q: u64| #[trigger] final(self).requested(q) == (old(self).requested(q) || (r is Ok
                && q == req_id)),
            final(self).log_view() == if r is Ok {
                old(self).log_view().push((req_id, Seq::new(32, |i: int| 2u8)))
            } else {
                old(self).log_view()
            },
    {
        match origin {
            Origin::Signed(_) => {},
            _ => {
                return Err(KeygenError::BadOrigin);
            },
        }
        if self.is_requested(req_id) {
            return Err(KeygenError::DuplicateRequest);
        }
        let ghost before = self.request_results@;
        self.request_results.push((req_id, None));
        proof {
            assert forall|i: int| 0 <= i < before.len() implies before[i].0 != req_id by {
                if before[i].0 == req_id {
                    lemma_find_at(before, i as int);
                }
            }
            lemma_push_new(before, req_id, None::<[u8; 32]>);
        }
        let mut data: Vec<u8> = Vec::new();
        let mut i: usize = 0;
        while i < 32
            invariant
                0 <= i <= 32,
                data@ == Seq::new(i as nat, |k: int| 2u8),
            decreases 32 - i,
        {
            data.push(2u8);
            proof {
                assert(data@ =~= Seq::new((i + 1) as nat, |k: int| 2u8));
            }
            i = i + 1;
        }
        let ghost l0 = self.log_view();
        let ghost dv = data@;
        self.logs.push(KeygenLog::RequestForKeygen(req_id, data));
        proof {
            assert(self.log_view() =~= l0.push((req_id, dv)));
        }
        Ok(())
    }

    /// The reports this node makes of the result `r` of request `id`: one
    /// for each authority whose key is among `local_keys`, in authority
    /// order; a one-byte result reports no data.
    pub fn local_results(&self, id: u64, r: &Vec<u8>, local_keys: &Vec<u64>) -> (out: Vec<KeygenResult>)
        requires
            self.keys_view().len() <= u32::MAX,
        ensures
            out@.len() == local_indices(self.keys_view(), local_keys@).len(),
            forall|i: int|
                0 <= i < out@.len() ==> {
                    &&& (#[trigger] out@[i]).req_id == id
                    &&& out@[i].our_auth_index == local_indices(self.keys_view(), local_keys@)[i]
                    &&& data_view(out@[i].result_data) == if r@.len() == 1 {
                        None
                    } else {
                        Some(r@)
                    }
                },
    {
        let mut out: Vec<KeygenResult> = Vec::new();
        let mut i: usize = 0;
        while i < self.keys.len()
            invariant
                self.keys@.len() <= u32::MAX,
                0 <= i <= self.keys@.len(),
                out@.len() == local_indices(self.keys@.take(i as int), local_keys@).len(),
                forall|j: int|
                    0 <= j < out@.len() ==> {
                        &&& (#[trigger] out@[j]).req_id == id
                        &&& out@[j].our_auth_index == local_indices(self.keys@.take(i as int), local_keys@)[j]
                        &&& data_view(out@[j].result_data) == if r@.len() == 1 {
                            None
                        } else {
                            Some(r@)
                        }
                    },
            decreases self.keys@.len() - i,
        {
            let ghost prev = local_indices(self.keys@.take(i as int), local_keys@);
            proof {
                assert(self.keys@.take(i + 1).drop_last() =~= self.keys@.take(i as int));
                assert(self.keys@.take(i + 1).last() == self.keys@[i as int]);
            }
            if contains_key(local_keys, self.keys[i]) {
                let data = if r.len() == 1 {
                    None
                } else {
                    Some(copy_bytes(r))
                };
                out.push(KeygenResult { req_id: id, result_data: data, our_auth_index: i as u32 });
            }
            i = i + 1;
        }
        proof {
            assert(self.keys@.take(i as int) =~= self.keys@);
        }
        out
    }
}

/// A report is final: once an authority has reported a request, every
/// further report of it by that authority is refused.
pub proof fn lemma_report_is_final(m: Module, origin: Origin, index: u32, req: u64, signature_valid: bool)
    requires
        index < m.keys_view().len(),
        m.vote(m.keys_view()[index as int], req) is Some,
    ensures
        m.report_outcome(origin, index, req, signature_valid) is Err,
{
}

/// The places of the authorities whose keys are local, in order.
pub open spec fn local_indices(keys: Seq<u64>, local: Seq<u64>) -> Seq<u32>
    decreases keys.len(),
{
    if keys.len() == 0 {
        Seq::empty()
    } else if local.contains(keys.last()) {
        local_indices(keys.drop_last(), local).push((keys.len() - 1) as u32)
    } else {
        local_indices(keys.drop_last(), local)
    }
}

fn contains_key(v: &Vec<u64>, x: u64) -> (r: bool)
    ensures
        r == v@.contains(x),
{
    let mut i: usize = 0;
    while i < v.len()
        invariant
            0 <= i <= v@.len(),
            forall|j: int| 0 <= j < i ==> v@[j] != x,
        decreases v@.len() - i,
    {
        if v[i] == x {
            return true;
        }
        i = i + 1;
    }
    false
}

fn copy_bytes(b: &Vec<u8>) -> (r: Vec<u8>)
    ensures
        r@ == b@,
{
    let mut r: Vec<u8> = Vec::new();
    let mut i: usize = 0;
    while i < b.len()
        invariant
            0 <= i <= b@.len(),
            r@ == b@.take(i as int),
        decreases b@.len() - i,
    {
        r.push(b[i]);
        proof {
            assert(b@.take(i + 1) =~= b@.take(i as int).push(b@[i as int]));
        }
        i = i + 1;
    }
    assert(b@.take(i as int) =~= b@);
    r
}

/// The requests whose results are to be reported: those of the stored
/// list of completed requests, none where nothing is stored or it does not
/// decode.
pub fn requests_to_report(stored: Option<Vec<u8>>) -> (r: Vec<u64>)
    ensures
        match stored {
            Some(b) => match decoded_ids(b@) {
                Some(ids) => r@ == ids,
                None => r@.len() == 0,
            },
            None => r@.len() == 0,
        },
{
    match stored {
        Some(b) => match decode_ids(b.as_slice()) {
            Some(ids) => ids,
            None => Vec::new(),
        },
        None => Vec::new(),
    }
}

} // verus!
