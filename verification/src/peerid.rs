//! Network peer identities and how two spellings of one are compared.

use vstd::prelude::*;

verus! {

/// A network peer, wrapped.
#[derive(Clone, Copy, Debug, PartialEq, Eq, Structural)]
pub struct PeerIdW(pub u64);

/// A type that names a network peer.
pub trait PeerIdTrait {}

/// Comparison with another spelling of a peer.
pub trait IsSamePeer<PId: PeerIdTrait> {
    fn is_same_peer(&self, peer: &PId) -> bool;
}

impl PeerIdTrait for PeerIdW {}

impl PeerIdTrait for u64 {}

impl IsSamePeer<u64> for PeerIdW {
    fn is_same_peer(&self, peer: &u64) -> (r: bool)
        ensures
            r == (self.0 == *peer),
    {
        self.0 == *peer
    }
}

impl IsSamePeer<PeerIdW> for u64 {
    fn is_same_peer(&self, peer: &PeerIdW) -> (r: bool)
        ensures
            r == (*self == peer.0),
    {
        *self == peer.0
    }
}

} // verus!
