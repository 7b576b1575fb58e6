//! The insert witness and its verifier: everything needed to recompute the
//! new root after an insertion from the old root alone.

use vstd::prelude::*;

use crate::hasher::Hashor;
use crate::keys::bytes32_eq;
use crate::node::{spec_is_ln_of, IMTNode};
use crate::root::{imt_root, node_exists, spec_imt_root};
use crate::ImtError;

verus! {

/// The witness emitted by an insertion.
///
/// It carries the claimed low nullifier and its sibling path in the old tree,
/// the inserted node and its sibling path in the new tree, and the low
/// nullifier's sibling path after both mutations.
pub struct IMTInsert {
    pub old_root: crate::Hash,
    pub old_size: u64,
    pub ln_node: IMTNode,
    pub ln_siblings: Vec<Option<crate::Hash>>,
    pub node: IMTNode,
    pub node_siblings: Vec<Option<crate::Hash>>,
    pub updated_ln_siblings: Vec<Option<crate::Hash>>,
}

/// The low nullifier as the insertion rewrites it: its `next_key` now names
/// the inserted key.
pub open spec fn spec_updated_ln(w: IMTInsert) -> IMTNode {
    IMTNode { next_key: w.node.key, ..w.ln_node }
}

/// Whether the witness's claimed low nullifier is valid: it satisfies the
/// ordering relation against the inserted key and reconstructs the old root.
pub open spec fn spec_valid_ln<H: Hashor>(w: IMTInsert) -> bool {
    &&& spec_is_ln_of(w.ln_node, w.node.key@)
    &&& spec_imt_root::<H>(w.old_size, w.ln_node, w.ln_siblings@) == w.old_root@
}

/// What verifying an insert witness returns: the new root, or the exact error.
///
/// The cross-check of the two recomputed roots (from the inserted node and
/// from the rewritten low nullifier) is what makes a valid insert
/// unforgeable: both sibling paths must agree on one common tree.
pub open spec fn spec_insert_verify<H: Hashor>(w: IMTInsert, expected_old_root: Seq<u8>) -> Result<
    Seq<u8>,
    ImtError,
> {
    if expected_old_root != w.old_root@ {
        Err(ImtError::StaleOldRoot)
    } else if !spec_valid_ln::<H>(w) {
        Err(ImtError::InvalidLn)
    } else {
        let new_size = (w.old_size + 1) as u64;
        let r1 = spec_imt_root::<H>(new_size, w.node, w.node_siblings@);
        let r2 = spec_imt_root::<H>(new_size, spec_updated_ln(w), w.updated_ln_siblings@);
        if r1 != r2 {
            Err(ImtError::InconsistentSiblings)
        } else {
            Ok(r1)
        }
    }
}

/// An insert witness whose claimed low nullifier fails the ordering relation
/// against the inserted key is rejected with exactly `InvalidLn`.
pub proof fn lemma_unordered_ln_rejected<H: Hashor>(w: IMTInsert, r: Seq<u8>)
    requires
        r == w.old_root@,
        !spec_is_ln_of(w.ln_node, w.node.key@),
    ensures
        spec_insert_verify::<H>(w, r) == Err::<Seq<u8>, ImtError>(ImtError::InvalidLn),
{
}

impl IMTInsert {
    /// Verifies the insert witness against the caller's expected old root and
    /// returns the new root, or the error that names the first failing check.
    pub fn verify<H: Hashor>(&self, old_root: crate::Hash) -> (r: Result<crate::Hash, ImtError>)
        requires
            self.old_size < u64::MAX,
        ensures
            crate::mutate::res_view(r) == spec_insert_verify::<H>(*self, old_root@),
    {
        // Make sure the witness's old_root matches the expected old_root.
        if !bytes32_eq(&old_root, &self.old_root) {
            return Err(ImtError::StaleOldRoot);
        }
        // Verify that the provided ln node is valid.
        if !self.is_valid_ln::<H>() {
            return Err(ImtError::InvalidLn);
        }
        // Compute the updated root from the node and the updated ln node.
        let updated_ln = IMTNode { next_key: self.node.key, ..self.ln_node };
        let new_size: u64 = self.old_size + 1;
        let root_from_node = imt_root::<H>(new_size, &self.node, &self.node_siblings);
        let root_from_updated_ln = imt_root::<H>(new_size, &updated_ln, &self.updated_ln_siblings);
        // Make sure both roots are equal.
        if !bytes32_eq(&root_from_node, &root_from_updated_ln) {
            return Err(ImtError::InconsistentSiblings);
        }
        Ok(root_from_node)
    }

    /// Returns true iff `self.ln_node` is a valid low nullifier for `self.node`.
    fn is_valid_ln<H: Hashor>(&self) -> (r: bool)
        ensures
            r == spec_valid_ln::<H>(*self),
    {
        self.ln_node.is_ln_of(&self.node.key) && node_exists::<H>(
            &self.old_root,
            self.old_size,
            &self.ln_node,
            &self.ln_siblings,
        )
    }
}

} // verus!
