//! Indexed Merkle Tree: an authenticated key-value store whose mutations
//! (insert, update) emit compact witnesses that a verifier can replay,
//! recomputing the new root from the old one.

use vstd::prelude::*;

pub mod hasher;
pub mod imt;
pub mod insert;
pub mod keys;
pub mod mutate;
pub mod node;
pub mod root;
pub mod update;

verus! {

/// A 32-byte digest.
pub type Hash = [u8; 32];

/// A 32-byte key, ordered lexicographically.
pub type Key = [u8; 32];

/// A 32-byte value.
pub type Value = [u8; 32];

/// A validation error surfaced by the mutation verifier. Any error
/// short-circuits verification: no new root is produced.
#[derive(Clone, Copy, Debug, PartialEq, Eq, Structural)]
pub enum ImtError {
    /// The witness was built against a different base root than the caller
    /// asserted.
    StaleOldRoot,
    /// The claimed low nullifier fails the ordering relation against the new
    /// key, or is not provably in the old tree.
    InvalidLn,
    /// The insert's two recomputed roots disagree.
    InconsistentSiblings,
    /// The update's node and siblings do not reconstruct the old root.
    NodeNotInTree,
}

impl ImtError {
    /// A human-readable description of the error.
    pub fn message(&self) -> (m: &'static str)
        ensures
            *self is StaleOldRoot ==> m@ == "IMTMutate.old_root is stale"@,
            *self is InvalidLn ==> m@ == "IMTMutate.ln_node is invalid"@,
            *self is InconsistentSiblings ==> m@ == "IMTMutate.updated_ln_siblings is invalid"@,
            *self is NodeNotInTree ==> m@ == "IMTMutate.node is not in the IMT"@,
    {
        match self {
            ImtError::StaleOldRoot => "IMTMutate.old_root is stale",
            ImtError::InvalidLn => "IMTMutate.ln_node is invalid",
            ImtError::InconsistentSiblings => "IMTMutate.updated_ln_siblings is invalid",
            ImtError::NodeNotInTree => "IMTMutate.node is not in the IMT",
        }
    }
}

} // verus!
