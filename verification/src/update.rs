//! The update witness and its verifier: recomputes the new root after a value
//! change from the old root alone.

use vstd::prelude::*;

use crate::hasher::Hashor;
use crate::keys::bytes32_eq;
use crate::node::IMTNode;
use crate::root::{imt_root, node_exists, spec_imt_root};
use crate::ImtError;

verus! {

/// The witness emitted by an update: the pre-update node, its sibling path,
/// and the new value.
pub struct IMTUpdate {
    pub old_root: crate::Hash,
    pub size: u64,
    pub node: IMTNode,
    pub node_siblings: Vec<Option<crate::Hash>>,
    pub new_value: crate::Value,
}

/// The node as the update rewrites it: same slot and keys, new value.
pub open spec fn spec_updated_node(w: IMTUpdate) -> IMTNode {
    IMTNode { value: w.new_value, ..w.node }
}

/// What applying an update witness returns: the new root, or the exact error.
pub open spec fn spec_update_verify<H: Hashor>(w: IMTUpdate, expected_old_root: Seq<u8>) -> Result<
    Seq<u8>,
    ImtError,
> {
    if expected_old_root != w.old_root@ {
        Err(ImtError::StaleOldRoot)
    } else if spec_imt_root::<H>(w.size, w.node, w.node_siblings@) != w.old_root@ {
        Err(ImtError::NodeNotInTree)
    } else {
        Ok(spec_imt_root::<H>(w.size, spec_updated_node(w), w.node_siblings@))
    }
}

impl IMTUpdate {
    /// Applies the update witness against the caller's expected old root and
    /// returns the new root, or the error that names the first failing check.
    pub fn apply<H: Hashor>(&self, old_root: crate::Hash) -> (r: Result<crate::Hash, ImtError>)
        ensures
            crate::mutate::res_view(r) == spec_update_verify::<H>(*self, old_root@),
    {
        // Make sure the witness's old_root matches the expected old_root.
        if !bytes32_eq(&old_root, &self.old_root) {
            return Err(ImtError::StaleOldRoot);
        }
        // Verify that the node to update is already in the IMT.
        if !node_exists::<H>(&self.old_root, self.size, &self.node, &self.node_siblings) {
            return Err(ImtError::NodeNotInTree);
        }
        // Compute the new root from the updated node.
        let updated_node = IMTNode { value: self.new_value, ..self.node };
        Ok(imt_root::<H>(self.size, &updated_node, &self.node_siblings))
    }
}

} // verus!
