//! The consensus node's persistent data: the authority set, and the set it
//! voted for, read at start-up from the node's auxiliary store. Reading and
//! decoding the stored bytes happens outside; the values come back here.

use vstd::prelude::*;

verus! {

/// The version of the stored data this node reads.
pub const CURRENT_VERSION: u32 = 0;

/// An authority set: its authorities and its id.
pub struct AuthoritySet {
    pub current_authorities: Vec<u64>,
    pub set_id: u64,
}

/// Persistent data kept between runs.
pub struct BadgerPersistentData {
    pub authority_set: AuthoritySet,
    pub change_vote: Option<AuthoritySet>,
}

/// The data found in the store: its version, if one is stored, the stored
/// authority set and the stored vote. `Ok(None)` asks for the genesis set,
/// which is then stored; a version this node does not read is refused with
/// that version.
pub fn load_persistent_badger(
    version: Option<u32>,
    stored_set: Option<AuthoritySet>,
    change_vote: Option<AuthoritySet>,
) -> (r: Result<Option<BadgerPersistentData>, u32>)
    ensures
        match version {
            Some(v) if v != CURRENT_VERSION => r == Err::<Option<BadgerPersistentData>, u32>(v),
            _ => match stored_set {
                Some(s) => r matches Ok(Some(d)) && d.authority_set == s && d.change_vote == change_vote,
                None => r matches Ok(None),
            },
        },
{
    match version {
        Some(v) => {
            if v != CURRENT_VERSION {
                return Err(v);
            }
        },
        None => {},
    }
    match stored_set {
        Some(s) => Ok(Some(BadgerPersistentData { authority_set: s, change_vote })),
        None => Ok(None),
    }
}

/// The data of a first start: the genesis authorities as set 0, and no
/// vote.
pub fn genesis_persistent(genesis_authorities: Vec<u64>) -> (r: BadgerPersistentData)
    ensures
        r.authority_set.current_authorities@ == genesis_authorities@,
        r.authority_set.set_id == 0,
        r.change_vote is None,
{
    BadgerPersistentData {
        authority_set: AuthoritySet { current_authorities: genesis_authorities, set_id: 0 },
        change_vote: None,
    }
}

} // verus!
