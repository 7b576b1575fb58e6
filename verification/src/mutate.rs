//! A mutation witness: the tagged union of insert and update witnesses, with
//! one verifier entry point.

use vstd::prelude::*;

use crate::hasher::Hashor;
use crate::insert::{spec_insert_verify, IMTInsert};
use crate::node::IMTNode;
use crate::update::{spec_update_verify, IMTUpdate};
use crate::ImtError;

verus! {

/// A mutation witness, as emitted by the tree engine.
pub enum IMTMutate {
    Insert(IMTInsert),
    Update(IMTUpdate),
}

/// The view of a verifier result: the root as a byte string, or the error.
pub open spec fn res_view(r: Result<crate::Hash, ImtError>) -> Result<Seq<u8>, ImtError> {
    match r {
        Ok(h) => Ok(h@),
        Err(e) => Err(e),
    }
}

/// What verifying a mutation witness returns: the new root, or the exact
/// error, by the rules of the witness's variant.
pub open spec fn spec_mutate_verify<H: Hashor>(m: IMTMutate, expected_old_root: Seq<u8>) -> Result<
    Seq<u8>,
    ImtError,
> {
    match m {
        IMTMutate::Insert(w) => spec_insert_verify::<H>(w, expected_old_root),
        IMTMutate::Update(w) => spec_update_verify::<H>(w, expected_old_root),
    }
}

/// The base root a mutation witness was built against.
pub open spec fn spec_mutate_old_root(m: IMTMutate) -> Seq<u8> {
    match m {
        IMTMutate::Insert(w) => w.old_root@,
        IMTMutate::Update(w) => w.old_root@,
    }
}

/// Stale-root rejection: verifying any witness against a root other than the
/// one it was built on yields exactly `StaleOldRoot`.
pub proof fn lemma_stale_root_rejected<H: Hashor>(m: IMTMutate, r: Seq<u8>)
    requires
        r != spec_mutate_old_root(m),
    ensures
        spec_mutate_verify::<H>(m, r) == Err::<Seq<u8>, ImtError>(ImtError::StaleOldRoot),
{
}

impl IMTMutate {
    /// Packs an insert witness.
    pub fn insert(
        old_root: crate::Hash,
        old_size: u64,
        ln_node: IMTNode,
        ln_siblings: Vec<Option<crate::Hash>>,
        node: IMTNode,
        node_siblings: Vec<Option<crate::Hash>>,
        updated_ln_siblings: Vec<Option<crate::Hash>>,
    ) -> (m: Self)
        ensures
            m == IMTMutate::Insert(
                IMTInsert {
                    old_root,
                    old_size,
                    ln_node,
                    ln_siblings,
                    node,
                    node_siblings,
                    updated_ln_siblings,
                },
            ),
    {
        Self::Insert(
            IMTInsert {
                old_root,
                old_size,
                ln_node,
                ln_siblings,
                node,
                node_siblings,
                updated_ln_siblings,
            },
        )
    }

    /// Packs an update witness.
    pub fn update(
        old_root: crate::Hash,
        size: u64,
        node: IMTNode,
        node_siblings: Vec<Option<crate::Hash>>,
        new_value: crate::Value,
    ) -> (m: Self)
        ensures
            m == IMTMutate::Update(IMTUpdate { old_root, size, node, node_siblings, new_value }),
    {
        Self::Update(IMTUpdate { old_root, size, node, node_siblings, new_value })
    }

    /// Verifies the mutation witness against the caller's expected old root
    /// and returns the new root, or the error naming the first failing check.
    pub fn verify<H: Hashor>(&self, old_root: crate::Hash) -> (r: Result<crate::Hash, ImtError>)
        requires
            *self matches IMTMutate::Insert(w) ==> w.old_size < u64::MAX,
        ensures
            res_view(r) == spec_mutate_verify::<H>(*self, old_root@),
    {
        match self {
            IMTMutate::Insert(w) => w.verify::<H>(old_root),
            IMTMutate::Update(w) => w.apply::<H>(old_root),
        }
    }
}

} // verus!
