//! Messages of the MPC signing client.

use vstd::prelude::*;

verus! {

/// Peer confirmation: a peer confirms its index, and is answered with the
/// confirmer's name.
pub enum ConfirmPeersMessage {
    Confirming(u16),
    Confirmed(String),
}

} // verus!
