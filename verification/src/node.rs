//! A node of the indexed linked list: the entity the Merkle leaves commit to.

use vstd::prelude::*;

use crate::hasher::Hashor;
use crate::keys::{key_is_zero, key_lt, lex_lt, zero_key};
use crate::{Key, Value};

verus! {

/// An entry of the indexed linked list overlaid on the Merkle tree.
///
/// `index` is the physical leaf slot, assigned once at insertion; `key` is
/// immutable; `value` changes through updates; `next_key` names the next key
/// in ascending order, or the zero key if this node holds the largest key.
#[derive(Clone, Copy, Debug)]
pub struct IMTNode {
    pub index: u64,
    pub key: Key,
    pub value: Value,
    pub next_key: Key,
}

/// The byte string a node's leaf digest commits to: `key || value || next_key`.
/// The index is deliberately left out, so the leaf depends on the linked-list
/// content alone.
pub open spec fn leaf_bytes(n: IMTNode) -> Seq<u8> {
    n.key@ + n.value@ + n.next_key@
}

/// The leaf digest of a node under the digest function of `H`.
pub open spec fn spec_leaf_hash<H: Hashor>(n: IMTNode) -> Seq<u8> {
    H::digest(leaf_bytes(n))
}

/// The low-nullifier relation: `n` is the low nullifier of a candidate key
/// `k` iff `n.key < k` and either `k < n.next_key` or `n.next_key` is the
/// zero key (`n` holds the largest key).
pub open spec fn spec_is_ln_of(n: IMTNode, k: Seq<u8>) -> bool {
    lex_lt(n.key@, k) && (lex_lt(k, n.next_key@) || n.next_key@ == zero_key())
}

/// The leaf hash commits to the logical fields alone: nodes that agree on
/// key, value and next key hash identically, whatever their slots.
pub proof fn lemma_index_not_hashed<H: Hashor>(a: IMTNode, b: IMTNode)
    requires
        a.key@ == b.key@,
        a.value@ == b.value@,
        a.next_key@ == b.next_key@,
    ensures
        spec_leaf_hash::<H>(a) == spec_leaf_hash::<H>(b),
{
}

impl IMTNode {
    /// The digest of `key || value || next_key`. The index is intentionally
    /// not hashed: a verifier can recompute the leaf from the logical fields
    /// alone.
    pub fn hash<H: Hashor>(&self, hasher: H) -> (h: crate::Hash)
        requires
            hasher.absorbed() == Seq::<u8>::empty(),
        ensures
            h@ == spec_leaf_hash::<H>(*self),
    {
        let mut h: crate::Hash = [0u8; 32];
        let mut hasher = hasher;
        hasher.update_hashor(self.key.as_slice());
        hasher.update_hashor(self.value.as_slice());
        hasher.update_hashor(self.next_key.as_slice());
        proof {
            assert(hasher.absorbed() =~= leaf_bytes(*self));
        }
        hasher.finalize_hashor_into(&mut h);
        h
    }

    /// Returns true iff `self` is the low nullifier of `node_key`.
    pub fn is_ln_of(&self, node_key: &Key) -> (r: bool)
        ensures
            r == spec_is_ln_of(*self, node_key@),
    {
        key_lt(&self.key, node_key) && (key_lt(node_key, &self.next_key) || key_is_zero(
            &self.next_key,
        ))
    }
}

} // verus!
