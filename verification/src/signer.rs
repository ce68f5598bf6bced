//! The round bookkeeping of the MPC key-generation signer: how many peers
//! confirmed, and how many commitments, shares and proofs arrived, and which
//! step of the protocol each arrival triggers. The cryptography of the steps
//! runs outside; its results come back as events.

use vstd::prelude::*;

verus! {

/// What has arrived so far in each round.
#[derive(Clone, Copy, Debug, PartialEq, Eq, Structural)]
pub struct Confirmations {
    pub peer: u16,
    pub com_decom: u16,
    pub vss: u16,
    pub secret_share: u16,
    pub proof: u16,
}

/// An incoming signer message, by its round and sender index.
#[derive(Clone, Copy, Debug, PartialEq, Eq, Structural)]
pub enum SignerEvent {
    /// A peer confirms its index and the hash of the peer set it sees;
    /// `sender_index` and `our_hash` are what we know of the same.
    Confirming { from_index: u16, hash: u64, sender_index: u16, our_hash: u64 },
    /// A peer answered our confirmation.
    Confirmed,
    /// A commitment and decommitment from a peer; `decommits` is how many
    /// decommitments we then hold.
    CommitAndDecommit { from_index: u16, decommits: usize },
    /// A verifiable secret sharing from a peer.
    Vss { from_index: u16 },
    /// A secret share from a peer.
    SecretShare { from_index: u16 },
    /// A proof from a peer; `proofs` and `points` are how many proofs and
    /// decommitted points we then hold.
    Proof { from_index: u16, proofs: usize, points: usize },
    /// A signing message.
    Sign,
}

/// The step a message triggers.
#[derive(Clone, Copy, Debug, PartialEq, Eq, Structural)]
pub enum SignerStep {
    Nothing,
    /// Answer the confirming peer with our name.
    ReplyConfirmed,
    /// Every peer confirmed: create our keys and broadcast the commitment.
    StartKeyGen,
    /// Every commitment arrived: distribute the verifiable shares.
    DistributeShares,
    /// Every proof arrived: verify the proofs and finish.
    VerifyProofs,
}

/// The signer's round state.
pub struct Signer {
    pub players: u16,
    pub confirmations: Confirmations,
    pub complete: bool,
    pub has_local_key: bool,
}

/// The counts after an event.
pub open spec fn counted(c: Confirmations, e: SignerEvent) -> Confirmations {
    match e {
        SignerEvent::Confirmed => Confirmations { peer: (c.peer + 1) as u16, ..c },
        SignerEvent::CommitAndDecommit { .. } => Confirmations { com_decom: (c.com_decom + 1) as u16, ..c },
        SignerEvent::Vss { .. } => Confirmations { vss: (c.vss + 1) as u16, ..c },
        SignerEvent::SecretShare { .. } => Confirmations { secret_share: (c.secret_share + 1) as u16, ..c },
        SignerEvent::Proof { .. } => Confirmations { proof: (c.proof + 1) as u16, ..c },
        _ => c,
    }
}

/// The step an event triggers, given the counts after it.
pub open spec fn step_of(after: Confirmations, players: u16, e: SignerEvent) -> SignerStep {
    match e {
        SignerEvent::Confirming { from_index, hash, sender_index, our_hash } => if from_index
            == sender_index && hash == our_hash {
            SignerStep::ReplyConfirmed
        } else {
            SignerStep::Nothing
        },
        SignerEvent::Confirmed => if after.peer == players - 1 {
            SignerStep::StartKeyGen
        } else {
            SignerStep::Nothing
        },
        SignerEvent::CommitAndDecommit { decommits, .. } => if after.com_decom == players - 1
            && decommits == players {
            SignerStep::DistributeShares
        } else {
            SignerStep::Nothing
        },
        SignerEvent::Proof { proofs, points, .. } => if after.proof == players - 1 && proofs
            == players && points == players {
            SignerStep::VerifyProofs
        } else {
            SignerStep::Nothing
        },
        _ => SignerStep::Nothing,
    }
}

/// No count can overflow with one more message.
pub open spec fn room_for_one(c: Confirmations) -> bool {
    &&& c.peer < u16::MAX
    &&& c.com_decom < u16::MAX
    &&& c.vss < u16::MAX
    &&& c.secret_share < u16::MAX
    &&& c.proof < u16::MAX
}

impl Signer {
    /// A signer for `players` parties that has heard nothing yet.
    pub fn new(players: u16) -> (r: Signer)
        ensures
            r.players == players,
            r.confirmations == (Confirmations { peer: 0, com_decom: 0, vss: 0, secret_share: 0, proof: 0 }),
            !r.complete,
            !r.has_local_key,
    {
        Signer {
            players,
            confirmations: Confirmations { peer: 0, com_decom: 0, vss: 0, secret_share: 0, proof: 0 },
            complete: false,
            has_local_key: false,
        }
    }

    /// Counts an incoming message and returns the step it triggers.
    pub fn handle_incoming(&mut self, e: SignerEvent) -> (r: SignerStep)
        requires
            old(self).players >= 1,
            room_for_one(old(self).confirmations),
        ensures
            final(self).confirmations == counted(old(self).confirmations, e),
            final(self).players == old(self).players,
            final(self).complete == old(self).complete,
            final(self).has_local_key == (old(self).has_local_key || r == SignerStep::StartKeyGen),
            r == step_of(final(self).confirmations, old(self).players, e),
    {
        let players = self.players;
        match e {
            SignerEvent::Confirming { from_index, hash, sender_index, our_hash } => {
                if from_index == sender_index && hash == our_hash {
                    SignerStep::ReplyConfirmed
                } else {
                    SignerStep::Nothing
                }
            },
            SignerEvent::Confirmed => {
                self.confirmations.peer = self.confirmations.peer + 1;
                if self.confirmations.peer == players - 1 {
                    self.has_local_key = true;
                    SignerStep::StartKeyGen
                } else {
                    SignerStep::Nothing
                }
            },
            SignerEvent::CommitAndDecommit { decommits, .. } => {
                self.confirmations.com_decom = self.confirmations.com_decom + 1;
                if self.confirmations.com_decom == players - 1 && decommits == players as usize {
                    SignerStep::DistributeShares
                } else {
                    SignerStep::Nothing
                }
            },
            SignerEvent::Vss { .. } => {
                self.confirmations.vss = self.confirmations.vss + 1;
                SignerStep::Nothing
            },
            SignerEvent::SecretShare { .. } => {
                self.confirmations.secret_share = self.confirmations.secret_share + 1;
                SignerStep::Nothing
            },
            SignerEvent::Proof { proofs, points, .. } => {
                self.confirmations.proof = self.confirmations.proof + 1;
                if self.confirmations.proof == players - 1 && proofs == players as usize && points
                    == players as usize {
                    SignerStep::VerifyProofs
                } else {
                    SignerStep::Nothing
                }
            },
            SignerEvent::Sign => SignerStep::Nothing,
        }
    }

    /// Whether the shared keys can be generated now: every share and every
    /// verifiable sharing of the other parties arrived, our keys exist, and
    /// they were not generated yet.
    pub fn ready_to_generate(&self) -> (r: bool)
        requires
            self.players >= 1,
        ensures
            r == (self.confirmations.vss == self.confirmations.secret_share
                && self.confirmations.vss == self.players - 1 && !self.complete
                && self.has_local_key),
    {
        let c = self.confirmations;
        if c.vss != c.secret_share || c.vss != self.players - 1 || c.secret_share != self.players - 1
            || self.complete {
            return false;
        }
        self.has_local_key
    }

    /// Records that the shared keys were generated.
    pub fn mark_generated(&mut self)
        ensures
            final(self).complete,
            final(self).confirmations == old(self).confirmations,
            final(self).players == old(self).players,
            final(self).has_local_key == old(self).has_local_key,
    {
        self.complete = true;
    }
}

/// Counts never decrease: each message raises at most one of them, by one.
pub proof fn lemma_counts_grow(c: Confirmations, e: SignerEvent)
    requires
        room_for_one(c),
    ensures
        counted(c, e).peer >= c.peer,
        counted(c, e).com_decom >= c.com_decom,
        counted(c, e).vss >= c.vss,
        counted(c, e).secret_share >= c.secret_share,
        counted(c, e).proof >= c.proof,
        counted(c, e).peer + counted(c, e).com_decom + counted(c, e).vss + counted(c, e).secret_share
            + counted(c, e).proof <= c.peer + c.com_decom + c.vss + c.secret_share + c.proof + 1,
{
}

/// Key generation starts only on the confirmation that completes the
/// count of the other parties.
pub proof fn lemma_start_once(c: Confirmations, players: u16, e: SignerEvent)
    requires
        room_for_one(c),
        players >= 1,
        step_of(counted(c, e), players, e) == SignerStep::StartKeyGen,
    ensures
        e == SignerEvent::Confirmed,
        c.peer + 1 == players - 1,
{
}

} // verus!
