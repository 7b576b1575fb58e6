//! Root computation: climbing a Merkle path from a leaf to the committed
//! root, which also binds the tree size.

use vstd::arithmetic::power2::{lemma2_to64, lemma_pow2_adds, lemma_pow2_pos, pow2};
use vstd::arithmetic::div_mod::lemma_div_denominator;
use vstd::prelude::*;

use crate::hasher::Hashor;
use crate::keys::bytes32_eq;
use crate::node::{spec_leaf_hash, IMTNode};

verus! {

/// The big-endian bytes of the 64-bit tree size, most significant byte first.
pub open spec fn size_be_bytes(x: u64) -> Seq<u8> {
    seq![
        ((x as int / 0x100000000000000) % 0x100) as u8,
        ((x as int / 0x1000000000000) % 0x100) as u8,
        ((x as int / 0x10000000000) % 0x100) as u8,
        ((x as int / 0x100000000) % 0x100) as u8,
        ((x as int / 0x1000000) % 0x100) as u8,
        ((x as int / 0x10000) % 0x100) as u8,
        ((x as int / 0x100) % 0x100) as u8,
        ((x as int) % 0x100) as u8,
    ]
}

/// Computes the 8 big-endian bytes of `x`.
pub fn u64_be_bytes(x: u64) -> (r: [u8; 8])
    ensures
        r@ == size_be_bytes(x),
{
    let r: [u8; 8] = [
        ((x / 0x100000000000000) % 0x100) as u8,
        ((x / 0x1000000000000) % 0x100) as u8,
        ((x / 0x10000000000) % 0x100) as u8,
        ((x / 0x100000000) % 0x100) as u8,
        ((x / 0x1000000) % 0x100) as u8,
        ((x / 0x10000) % 0x100) as u8,
        ((x / 0x100) % 0x100) as u8,
        (x % 0x100) as u8,
    ];
    proof {
        assert(r@ =~= size_be_bytes(x));
    }
    r
}

/// The Merkle position of a leaf's ancestor `level` levels above it.
pub open spec fn level_pos(index: nat, level: nat) -> nat {
    index / pow2(level)
}

/// The sibling of a position: its lowest bit flipped.
pub open spec fn sib_of(pos: nat) -> nat {
    if pos % 2 == 0 {
        pos + 1
    } else {
        (pos - 1) as nat
    }
}

/// One combining step of the climb: hash the pair at a level, the even
/// position on the left. An absent sibling is skipped, not zero-filled: the
/// lone present child is absorbed by itself.
pub open spec fn combine_step<H: Hashor>(h: Seq<u8>, sib: Option<crate::Hash>, pos_even: bool) -> Seq<
    u8,
> {
    match sib {
        None => H::digest(h),
        Some(s) => if pos_even {
            H::digest(h + s@)
        } else {
            H::digest(s@ + h)
        },
    }
}

/// Folds a hash at position `pos` up a sibling path: the ancestor hash
/// `siblings.len()` levels above it.
pub open spec fn climb<H: Hashor>(h: Seq<u8>, pos: nat, siblings: Seq<Option<crate::Hash>>) -> Seq<
    u8,
>
    decreases siblings.len(),
{
    if siblings.len() == 0 {
        h
    } else {
        climb::<H>(combine_step::<H>(h, siblings[0], pos % 2 == 0), pos / 2, siblings.skip(1))
    }
}

/// The root committed to by a leaf, its sibling path, and the tree size: the
/// climbed hash bound together with the size's big-endian bytes. Binding the
/// size makes trees with the same leaves at different depths distinguishable.
pub open spec fn spec_imt_root<H: Hashor>(
    size: u64,
    node: IMTNode,
    siblings: Seq<Option<crate::Hash>>,
) -> Seq<u8> {
    H::digest(
        climb::<H>(spec_leaf_hash::<H>(node), node.index as nat, siblings) + size_be_bytes(size),
    )
}

/// Computes the IMT root from a node, its sibling path, and the tree size.
pub fn imt_root<H: Hashor>(
    size: u64,
    node: &IMTNode,
    siblings: &Vec<Option<crate::Hash>>,
) -> (r: crate::Hash)
    ensures
        r@ == spec_imt_root::<H>(size, *node, siblings@),
{
    let mut hash = node.hash(H::fresh());
    let mut index = node.index;
    let mut l: usize = 0;
    proof {
        lemma2_to64();
        assert(siblings@.skip(0) =~= siblings@);
    }
    while l < siblings.len()
        invariant
            0 <= l <= siblings@.len(),
            index as nat == level_pos(node.index as nat, l as nat),
            climb::<H>(hash@, index as nat, siblings@.skip(l as int)) == climb::<H>(
                spec_leaf_hash::<H>(*node),
                node.index as nat,
                siblings@,
            ),
        decreases siblings@.len() - l,
    {
        let sibling = siblings[l];
        let even = index % 2 == 0;
        let ghost prev = hash@;
        let mut hasher = H::fresh();
        match sibling {
            None => {
                hasher.update_hashor(hash.as_slice());
            },
            Some(s) => {
                if even {
                    hasher.update_hashor(hash.as_slice());
                    hasher.update_hashor(s.as_slice());
                } else {
                    hasher.update_hashor(s.as_slice());
                    hasher.update_hashor(hash.as_slice());
                }
            },
        }
        proof {
            match sibling {
                None => assert(hasher.absorbed() =~= prev),
                Some(s) => {
                    if even {
                        assert(hasher.absorbed() =~= prev + s@);
                    } else {
                        assert(hasher.absorbed() =~= s@ + prev);
                    }
                },
            }
        }
        hasher.finalize_hashor_into(&mut hash);
        proof {
            assert(hash@ == combine_step::<H>(prev, sibling, index as nat % 2 == 0));
            lemma_level_pos_step(node.index as nat, l as nat);
            assert(siblings@.skip(l as int).skip(1) =~= siblings@.skip(l + 1));
            assert(siblings@.skip(l as int)[0] == siblings@[l as int]);
        }
        index = index / 2;
        l = l + 1;
    }
    proof {
        assert(siblings@.skip(siblings@.len() as int) =~= Seq::<Option<crate::Hash>>::empty());
    }
    let size_bytes = u64_be_bytes(size);
    let mut hasher = H::fresh();
    hasher.update_hashor(hash.as_slice());
    hasher.update_hashor(size_bytes.as_slice());
    proof {
        assert(hasher.absorbed() =~= hash@ + size_be_bytes(size));
    }
    let mut root: crate::Hash = [0u8; 32];
    hasher.finalize_hashor_into(&mut root);
    root
}

/// Climbing one more level divides the position by two.
pub proof fn lemma_level_pos_step(index: nat, level: nat)
    ensures
        level_pos(index, level) / 2 == level_pos(index, (level + 1) as nat),
{
    lemma_pow2_pos(level);
    lemma_pow2_adds(level, 1);
    lemma2_to64();
    lemma_div_denominator(index as int, pow2(level) as int, 2);
}

/// Returns true iff the given node, with its sibling path, is part of the
/// tree of `size` leaves committed to in `root`.
pub fn node_exists<H: Hashor>(
    root: &crate::Hash,
    size: u64,
    node: &IMTNode,
    siblings: &Vec<Option<crate::Hash>>,
) -> (r: bool)
    ensures
        r == (root@ == spec_imt_root::<H>(size, *node, siblings@)),
{
    let computed = imt_root::<H>(size, node, siblings);
    bytes32_eq(root, &computed)
}

} // verus!
