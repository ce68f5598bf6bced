//! Offchain-storage key layouts used by the MPC and key-generation services.

use vstd::prelude::*;

verus! {

/// Little-endian byte encoding of the low `n` bytes of `x`.
pub open spec fn le_bytes(x: nat, n: nat) -> Seq<u8>
    decreases n,
{
    if n == 0 {
        Seq::empty()
    } else {
        seq![(x % 256) as u8] + le_bytes(x / 256, (n - 1) as nat)
    }
}

/// The eight little-endian bytes of a `u64` (also its SCALE encoding).
pub open spec fn u64_le(x: u64) -> Seq<u8> {
    le_bytes(x as nat, 8)
}

/// Appends the little-endian encoding of `x` to `out`.
pub fn extend_le_u64(out: &mut Vec<u8>, x: u64)
    ensures
        final(out)@ == old(out)@ + u64_le(x),
{
    let ghost start = out@;
    let mut v: u64 = x;
    let mut i: usize = 0;
    while i < 8
        invariant
            0 <= i <= 8,
            out@ + le_bytes(v as nat, (8 - i) as nat) == start + u64_le(x),
        decreases 8 - i,
    {
        let ghost before = out@;
        let b: u8 = (v % 256) as u8;
        out.push(b);
        proof {
            let k = (8 - i) as nat;
            assert(le_bytes(v as nat, k) == seq![b] + le_bytes((v / 256) as nat, (k - 1) as nat));
            assert(out@ + le_bytes((v / 256) as nat, (k - 1) as nat)
                == before + (seq![b] + le_bytes((v / 256) as nat, (k - 1) as nat)));
        }
        v = v / 256;
        i = i + 1;
    }
    proof {
        assert(le_bytes(v as nat, 0) == Seq::<u8>::empty());
        assert(out@ + Seq::<u8>::empty() == out@);
    }
}

} // verus!

verus! {

/// The SCALE encoding of a `u64`: its eight little-endian bytes.
#[verifier::external_body]
fn scale_encode_u64(x: u64) -> (r: Vec<u8>)
    ensures
        r@ == u64_le(x),
{
    parity_scale_codec::Encode::encode(&x)
}

/// What an offchain storage entry of an MPC request holds.
#[derive(Clone, Copy, Debug, PartialEq, Eq, Structural)]
pub enum OffchainStorageType {
    LocalSecretKey,
    SharedPublicKey,
    Signature,
}

/// "mpc/sk/", "mpc/pk/" or "mpc/sig/".
pub open spec fn storage_prefix(ost: OffchainStorageType) -> Seq<u8> {
    match ost {
        OffchainStorageType::LocalSecretKey => seq![109u8, 112, 99, 47, 115, 107, 47],
        OffchainStorageType::SharedPublicKey => seq![109u8, 112, 99, 47, 112, 107, 47],
        OffchainStorageType::Signature => seq![109u8, 112, 99, 47, 115, 105, 103, 47],
    }
}

fn extend_bytes(out: &mut Vec<u8>, bytes: &[u8])
    ensures
        final(out)@ == old(out)@ + bytes@,
{
    let mut i: usize = 0;
    while i < bytes.len()
        invariant
            0 <= i <= bytes@.len(),
            out@ == old(out)@ + bytes@.take(i as int),
        decreases bytes@.len() - i,
    {
        out.push(bytes[i]);
        proof {
            assert(bytes@.take(i + 1) =~= bytes@.take(i as int).push(bytes@[i as int]));
        }
        i = i + 1;
    }
    proof {
        assert(bytes@.take(i as int) =~= bytes@);
    }
}

/// The offchain storage key of request `id`'s entry of kind `ost`: the
/// kind's prefix, then the id's little-endian bytes.
pub fn get_storage_key(id: u64, ost: OffchainStorageType) -> (r: Vec<u8>)
    ensures
        r@ == storage_prefix(ost) + u64_le(id),
{
    let mut k: Vec<u8> = Vec::new();
    match ost {
        OffchainStorageType::LocalSecretKey => {
            extend_bytes(&mut k, &[109u8, 112, 99, 47, 115, 107, 47]);
        },
        OffchainStorageType::SharedPublicKey => {
            extend_bytes(&mut k, &[109u8, 112, 99, 47, 112, 107, 47]);
        },
        OffchainStorageType::Signature => {
            extend_bytes(&mut k, &[109u8, 112, 99, 47, 115, 105, 103, 47]);
        },
    }
    proof {
        assert(k@ =~= storage_prefix(ost));
    }
    extend_le_u64(&mut k, id);
    k
}

/// The offchain storage key of a signing request's result: the id's
/// little-endian bytes.
pub fn get_request_key(id: u64) -> (r: Vec<u8>)
    ensures
        r@ == u64_le(id),
{
    let mut k: Vec<u8> = Vec::new();
    extend_le_u64(&mut k, id);
    assert(k@ =~= u64_le(id));
    k
}

/// "srml/keygen/request_".
pub open spec fn main_db_prefix() -> Seq<u8> {
    seq![115u8, 114, 109, 108, 47, 107, 101, 121, 103, 101, 110, 47, 114, 101, 113, 117, 101, 115, 116, 95]
}

fn push_main_db_prefix(out: &mut Vec<u8>)
    ensures
        final(out)@ == old(out)@ + main_db_prefix(),
{
    extend_bytes(
        out,
        &[115u8, 114, 109, 108, 47, 107, 101, 121, 103, 101, 110, 47, 114, 101, 113, 117, 101, 115, 116, 95],
    );
}

/// The key of a key-generation request's data: the main prefix, "_data",
/// and the SCALE encoding of the id.
pub fn get_data_prefix(request_id: u64) -> (r: Vec<u8>)
    ensures
        r@ == main_db_prefix() + seq![95u8, 100, 97, 116, 97] + u64_le(request_id),
{
    let mut key: Vec<u8> = Vec::new();
    push_main_db_prefix(&mut key);
    extend_bytes(&mut key, &[95u8, 100, 97, 116, 97]);
    let enc = scale_encode_u64(request_id);
    extend_bytes(&mut key, enc.as_slice());
    assert(key@ =~= main_db_prefix() + seq![95u8, 100, 97, 116, 97] + u64_le(request_id));
    key
}

/// The offchain storage key a logged key-generation request is marked
/// under: the main prefix and the SCALE encoding of the id.
pub fn request_mark_key(request_id: u64) -> (r: Vec<u8>)
    ensures
        r@ == main_db_prefix() + u64_le(request_id),
{
    let mut key: Vec<u8> = Vec::new();
    push_main_db_prefix(&mut key);
    let enc = scale_encode_u64(request_id);
    extend_bytes(&mut key, enc.as_slice());
    assert(key@ =~= main_db_prefix() + u64_le(request_id));
    key
}

/// The key of a key-generation request's public key: the main prefix,
/// "_key", and the SCALE encoding of the id.
pub fn get_key_prefix(request_id: u64) -> (r: Vec<u8>)
    ensures
        r@ == main_db_prefix() + seq![95u8, 107, 101, 121] + u64_le(request_id),
{
    let mut key: Vec<u8> = Vec::new();
    push_main_db_prefix(&mut key);
    extend_bytes(&mut key, &[95u8, 107, 101, 121]);
    let enc = scale_encode_u64(request_id);
    extend_bytes(&mut key, enc.as_slice());
    assert(key@ =~= main_db_prefix() + seq![95u8, 107, 101, 121] + u64_le(request_id));
    key
}

/// The key of the list of completed key-generation requests: the main
/// prefix and "_crequests".
pub fn get_complete_list_prefix() -> (r: Vec<u8>)
    ensures
        r@ == main_db_prefix() + seq![95u8, 99, 114, 101, 113, 117, 101, 115, 116, 115],
{
    let mut key: Vec<u8> = Vec::new();
    push_main_db_prefix(&mut key);
    extend_bytes(&mut key, &[95u8, 99, 114, 101, 113, 117, 101, 115, 116, 115]);
    assert(key@ =~= main_db_prefix() + seq![95u8, 99, 114, 101, 113, 117, 101, 115, 116, 115]);
    key
}

/// The ids a stored list of completed requests decodes to, if it decodes.
pub uninterp spec fn decoded_ids(bytes: Seq<u8>) -> Option<Seq<u64>>;

/// The SCALE compact encoding of a list length up to `u32::MAX`: one, two
/// or four little-endian bytes holding the length shifted left by two with
/// the mode in the low bits, or the mode byte 3 followed by the four bytes
/// of the length.
pub open spec fn compact_len(n: nat) -> Seq<u8> {
    if n < 64 {
        seq![(n * 4) as u8]
    } else if n < 16384 {
        le_bytes(n * 4 + 1, 2)
    } else if n < 1073741824 {
        le_bytes(n * 4 + 2, 4)
    } else {
        seq![3u8] + le_bytes(n, 4)
    }
}

/// The ids one after another, each in its eight little-endian bytes.
pub open spec fn ids_le(ids: Seq<u64>) -> Seq<u8>
    decreases ids.len(),
{
    if ids.len() == 0 {
        Seq::empty()
    } else {
        ids_le(ids.drop_last()) + u64_le(ids.last())
    }
}

/// The SCALE encoding of a list of request ids: its compact length, then
/// the ids.
pub open spec fn encoded_ids(ids: Seq<u64>) -> Seq<u8> {
    compact_len(ids.len()) + ids_le(ids)
}

/// `<Vec<u64> as Decode>::decode` from the start of `bytes` (bytes after
/// the list are left unread): named by `decoded_ids`, `None` where decoding
/// fails.
#[verifier::external_body]
pub(crate) fn decode_ids(bytes: &[u8]) -> (r: Option<Vec<u64>>)
    ensures
        match decoded_ids(bytes@) {
            Some(ids) => r is Some && r.unwrap()@ == ids,
            None => r is None,
        },
{
    let mut input = bytes;
    <Vec<u64> as parity_scale_codec::Decode>::decode(&mut input).ok()
}

/// `<[u64] as Encode>::encode`: the compact length, then each id in its
/// eight little-endian bytes, as `encoded_ids` states; it decodes back to
/// the same ids. The length prefix holds at most `u32::MAX` items; the
/// encoder panics beyond that.
#[verifier::external_body]
fn encode_ids(ids: &[u64]) -> (r: Vec<u8>)
    requires
        ids@.len() <= u32::MAX,
    ensures
        r@ == encoded_ids(ids@),
        decoded_ids(r@) == Some(ids@),
{
    parity_scale_codec::Encode::encode(ids)
}

/// Ids ascending, each once.
pub open spec fn strictly_sorted(s: Seq<u64>) -> bool {
    forall|i: int, j: int| 0 <= i < j < s.len() ==> s[i] < s[j]
}

/// Inserts `x` into a strictly ascending list, keeping it so.
fn insert_id(v: &mut Vec<u64>, x: u64)
    requires
        strictly_sorted(old(v)@),
    ensures
        strictly_sorted(final(v)@),
        forall|y: u64| final(v)@.contains(y) <==> (old(v)@.contains(y) || y == x),
{
    let ghost s = v@;
    let mut j: usize = 0;
    while j < v.len() && v[j] < x
        invariant
            v@ == s,
            0 <= j <= s.len(),
            forall|a: int| 0 <= a < j ==> s[a] < x,
        decreases s.len() - j,
    {
        j = j + 1;
    }
    if j < v.len() && v[j] == x {
        return;
    }
    v.insert(j, x);
    proof {
        let t = v@;
        assert(t =~= s.insert(j as int, x));
        assert forall|a: int, b: int| 0 <= a < b < t.len() implies t[a] < t[b] by {
            if b < j {
                assert(t[a] == s[a] && t[b] == s[b]);
            } else if b == j {
                assert(t[a] == s[a]);
            } else if a < j {
                assert(t[a] == s[a] && t[b] == s[b - 1]);
                assert(s[j as int] > x);
            } else if a == j {
                assert(t[b] == s[b - 1]);
                assert(s[j as int] > x);
            } else {
                assert(t[a] == s[a - 1] && t[b] == s[b - 1]);
            }
        }
        assert forall|y: u64| t.contains(y) <==> (s.contains(y) || y == x) by {
            if t.contains(y) {
                let k = choose|k: int| 0 <= k < t.len() && t[k] == y;
                if k < j {
                    assert(s[k] == y);
                } else if k > j {
                    assert(s[k - 1] == y);
                }
            }
            if s.contains(y) {
                let k = choose|k: int| 0 <= k < s.len() && s[k] == y;
                if k < j {
                    assert(t[k] == y);
                } else {
                    assert(t[k + 1] == y);
                }
            }
            if y == x {
                assert(t[j as int] == x);
            }
        }
    }
}

/// The ids of `s` ascending, each once.
pub open spec fn sorted_set_of(s: Seq<u64>, r: Seq<u64>) -> bool {
    strictly_sorted(r) && forall|y: u64| r.contains(y) <==> s.contains(y)
}

/// Two ascending lists without repeats that hold the same ids are equal.
pub proof fn lemma_sorted_set_unique(a: Seq<u64>, b: Seq<u64>)
    requires
        strictly_sorted(a),
        strictly_sorted(b),
        forall|y: u64| a.contains(y) <==> b.contains(y),
    ensures
        a == b,
    decreases a.len(),
{
    if a.len() == 0 {
        if b.len() > 0 {
            assert(b.contains(b[0]));
        }
        assert(a =~= b);
    } else {
        assert(a.contains(a[0]));
        assert(b.contains(a[0]));
        assert(b.len() > 0);
        assert(b.contains(b[0]));
        assert(a.contains(b[0]));
        let ka = choose|k: int| 0 <= k < a.len() && a[k] == b[0];
        let kb = choose|k: int| 0 <= k < b.len() && b[k] == a[0];
        if ka > 0 {
            assert(a[0] < a[ka]);
        }
        if kb > 0 {
            assert(b[0] < b[kb]);
        }
        assert(a[0] == b[0]);
        let a1 = a.drop_first();
        let b1 = b.drop_first();
        assert forall|y: u64| a1.contains(y) <==> b1.contains(y) by {
            if a1.contains(y) {
                let k = choose|k: int| 0 <= k < a1.len() && a1[k] == y;
                assert(a[k + 1] == y);
                assert(a[0] < y);
                assert(a.contains(y));
                let j = choose|j: int| 0 <= j < b.len() && b[j] == y;
                assert(j != 0);
                assert(b1[j - 1] == y);
            }
            if b1.contains(y) {
                let k = choose|k: int| 0 <= k < b1.len() && b1[k] == y;
                assert(b[k + 1] == y);
                assert(b[0] < y);
                assert(b.contains(y));
                let j = choose|j: int| 0 <= j < a.len() && a[j] == y;
                assert(j != 0);
                assert(a1[j - 1] == y);
            }
        }
        lemma_sorted_set_unique(a1, b1);
        assert(a =~= seq![a[0]] + a1);
        assert(b =~= seq![b[0]] + b1);
    }
}

/// Completing a request that the stored list already holds stores the
/// list as it was: where the stored ids are ascending without repeats and
/// hold `request_id`, the ids to store are those ids.
pub proof fn lemma_complete_again(ids: Seq<u64>, request_id: u64, stored_next: Seq<u64>)
    requires
        strictly_sorted(ids),
        ids.contains(request_id),
        sorted_set_of(ids.push(request_id), stored_next),
    ensures
        stored_next == ids,
{
    assert forall|y: u64| stored_next.contains(y) <==> ids.contains(y) by {
        if ids.push(request_id).contains(y) {
            let k = choose|k: int| 0 <= k < ids.push(request_id).len() && ids.push(request_id)[k] == y;
            if k == ids.len() {
                assert(y == request_id);
            } else {
                assert(ids[k] == y);
            }
        }
        if ids.contains(y) {
            let k = choose|k: int| 0 <= k < ids.len() && ids[k] == y;
            assert(ids.push(request_id)[k] == y);
        }
    }
    lemma_sorted_set_unique(stored_next, ids);
}

/// Sorts ids ascending and drops repeats.
pub fn sort_dedup(v: &Vec<u64>) -> (r: Vec<u64>)
    ensures
        sorted_set_of(v@, r@),
{
    let mut r: Vec<u64> = Vec::new();
    let mut i: usize = 0;
    while i < v.len()
        invariant
            0 <= i <= v@.len(),
            sorted_set_of(v@.take(i as int), r@),
        decreases v@.len() - i,
    {
        let ghost r0 = r@;
        let x = v[i];
        insert_id(&mut r, x);
        proof {
            let t0 = v@.take(i as int);
            let t = v@.take(i + 1);
            assert(t =~= t0.push(x));
            assert forall|y: u64| r@.contains(y) <==> t.contains(y) by {
                assert(r@.contains(y) <==> (r0.contains(y) || y == x));
                assert(r0.contains(y) <==> t0.contains(y));
                if t.contains(y) && y != x {
                    let k = choose|k: int| 0 <= k < t.len() && t[k] == y;
                    assert(k < i);
                    assert(t0[k] == y);
                }
                if t0.contains(y) {
                    let k = choose|k: int| 0 <= k < t0.len() && t0[k] == y;
                    assert(t[k] == y);
                }
                if y == x {
                    assert(t[i as int] == x);
                }
            }
        }
        i = i + 1;
    }
    proof {
        assert(v@.take(i as int) =~= v@);
    }
    r
}

/// The ids of the completed-requests list once `request_id` completes:
/// the stored ids (none if nothing is stored) with `request_id`.
pub open spec fn completed_after(stored: Option<Vec<u8>>, request_id: u64) -> Seq<u64> {
    match stored {
        Some(bytes) => decoded_ids(bytes@).unwrap().push(request_id),
        None => seq![request_id],
    }
}

/// The stored list of completed requests after `request_id` completes:
/// the stored ids (none if nothing is stored) with `request_id`, ascending
/// and each once, encoded so that it decodes back to those ids. Fails
/// where the stored list does not decode, or where the list would hold
/// more ids than its length prefix can count.
pub fn set_request_complete(stored: Option<Vec<u8>>, request_id: u64) -> (r: Result<
    Vec<u8>,
    &'static str,
>)
    ensures
        match stored {
            Some(bytes) => decoded_ids(bytes@) is None ==> r is Err,
            None => true,
        },
        r is Err ==> match stored {
            Some(bytes) => decoded_ids(bytes@) is None,
            None => false,
        } || forall|ids: Seq<u64>|
            #![trigger sorted_set_of(completed_after(stored, request_id), ids)]
            sorted_set_of(completed_after(stored, request_id), ids) ==> ids.len() > u32::MAX,
        r is Ok ==> exists|ids: Seq<u64>|
            #![trigger encoded_ids(ids)]
            r->Ok_0@ == encoded_ids(ids) && decoded_ids(r->Ok_0@) == Some(ids) && sorted_set_of(
                completed_after(stored, request_id),
                ids,
            ),
{
    let mut reqs: Vec<u64> = Vec::new();
    match stored {
        Some(data) => {
            match decode_ids(data.as_slice()) {
                Some(ids) => {
                    reqs = ids;
                },
                None => {
                    return Err("Invalid data stored");
                },
            }
        },
        None => {},
    }
    let ghost before = reqs@;
    reqs.push(request_id);
    let sorted = sort_dedup(&reqs);
    proof {
        assert(reqs@ == before.push(request_id));
        if stored is None {
            assert(before.push(request_id) =~= seq![request_id]);
        }
        assert(reqs@ == completed_after(stored, request_id));
    }
    if sorted.len() > 4294967295usize {
        proof {
            assert forall|ids: Seq<u64>|
                #![trigger sorted_set_of(completed_after(stored, request_id), ids)]
                sorted_set_of(completed_after(stored, request_id), ids) implies ids.len() > u32::MAX by {
                lemma_sorted_set_unique(sorted@, ids);
            }
        }
        return Err("Too many completed requests stored");
    }
    let enc = encode_ids(sorted.as_slice());
    Ok(enc)
}

} // verus!
