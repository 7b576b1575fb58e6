//! The prover-side tree engine: node storage, a per-level cache of internal
//! hashes, incremental root recomputation, and dynamic depth growth.

use vstd::arithmetic::div_mod::{lemma_basic_div, lemma_div_denominator};
use vstd::arithmetic::power2::{
    lemma2_to64, lemma2_to64_rest, lemma_pow2_adds, lemma_pow2_pos, lemma_pow2_strictly_increases,
    pow2,
};
use vstd::prelude::*;

use crate::hasher::Hashor;
use crate::insert::IMTInsert;
use crate::keys::{
    bytes32_eq, lemma_lex_transitive, lemma_lex_trichotomy, lemma_zero_key_least, lex_lt, zero_key,
};
use crate::mutate::{spec_mutate_verify, IMTMutate};
use crate::node::{spec_is_ln_of, spec_leaf_hash, IMTNode};
use crate::root::{
    climb, combine_step, level_pos, lemma_level_pos_step, sib_of, size_be_bytes, spec_imt_root,
    u64_be_bytes,
};

verus! {

/// The hash of the Merkle subtree rooted at `level` and position `pos`,
/// derived from the leaves alone. `None` where the subtree spans no leaf: an
/// absent subtree contributes nothing, and a lone present child is hashed by
/// itself rather than paired with a placeholder.
pub open spec fn subtree_hash<H: Hashor>(nodes: Seq<IMTNode>, level: nat, pos: nat) -> Option<
    Seq<u8>,
>
    decreases level,
{
    if level == 0 {
        if pos < nodes.len() {
            Some(spec_leaf_hash::<H>(nodes[pos as int]))
        } else {
            None
        }
    } else {
        let left = subtree_hash::<H>(nodes, (level - 1) as nat, 2 * pos);
        let right = subtree_hash::<H>(nodes, (level - 1) as nat, 2 * pos + 1);
        match (left, right) {
            (None, None) => None,
            (Some(l), None) => Some(H::digest(l)),
            (None, Some(r)) => Some(H::digest(r)),
            (Some(l), Some(r)) => Some(H::digest(l + r)),
        }
    }
}

/// The root the engine commits to: the whole-tree hash bound with the size.
pub open spec fn spec_root_of<H: Hashor>(nodes: Seq<IMTNode>, depth: nat, size: u64) -> Seq<u8> {
    H::digest(subtree_hash::<H>(nodes, depth, 0).unwrap() + size_be_bytes(size))
}

/// The view of an optional cached hash as an optional byte string.
pub open spec fn opt_hash_view(o: Option<crate::Hash>) -> Option<Seq<u8>> {
    match o {
        None => None,
        Some(h) => Some(h@),
    }
}

/// A subtree holds a hash exactly when its leaf span reaches below the leaf
/// count.
pub proof fn lemma_subtree_some<H: Hashor>(nodes: Seq<IMTNode>, level: nat, pos: nat)
    ensures
        subtree_hash::<H>(nodes, level, pos) is Some <==> pos * pow2(level) < nodes.len(),
    decreases level,
{
    if level == 0 {
        lemma2_to64();
    } else {
        let l1 = (level - 1) as nat;
        lemma_subtree_some::<H>(nodes, l1, 2 * pos);
        lemma_subtree_some::<H>(nodes, l1, 2 * pos + 1);
        lemma_pow2_pos(l1);
        lemma2_to64();
        lemma_pow2_adds(l1, 1);
        assert((2 * pos) * pow2(l1) == pos * pow2(level) && (2 * pos + 1) * pow2(l1) >= pos
            * pow2(level)) by (nonlinear_arith)
            requires
                pow2(level) == pow2(l1) * 2,
                pow2(l1) >= 1,
        ;
    }
}

/// Two leaf sequences agree at slot `j`: it is a leaf of both or of neither,
/// and holds the same node where present.
pub open spec fn leaf_same(nodes1: Seq<IMTNode>, nodes2: Seq<IMTNode>, j: int) -> bool {
    &&& (j < nodes1.len()) <==> (j < nodes2.len())
    &&& 0 <= j < nodes1.len() ==> nodes1[j] == nodes2[j]
}

/// Subtree hashes depend only on the leaves below them: two leaf sequences
/// that agree on a subtree's whole span give it the same hash.
pub proof fn lemma_subtree_frame<H: Hashor>(
    nodes1: Seq<IMTNode>,
    nodes2: Seq<IMTNode>,
    level: nat,
    pos: nat,
)
    requires
        forall|j: int|
            pos * pow2(level) <= j < (pos + 1) * pow2(level) ==> #[trigger] leaf_same(
                nodes1,
                nodes2,
                j,
            ),
    ensures
        subtree_hash::<H>(nodes1, level, pos) == subtree_hash::<H>(nodes2, level, pos),
    decreases level,
{
    if level == 0 {
        lemma2_to64();
        assert(pos * 1 == pos && (pos + 1) * 1 == pos + 1);
        assert(leaf_same(nodes1, nodes2, pos as int));
    } else {
        let l1 = (level - 1) as nat;
        lemma_pow2_pos(l1);
        lemma2_to64();
        lemma_pow2_adds(l1, 1);
        assert((2 * pos) * pow2(l1) == pos * pow2(level) && (2 * pos + 2) * pow2(l1) == (pos + 1)
            * pow2(level) && (2 * pos + 1) * pow2(l1) == pos * pow2(level) + pow2(l1) && (2 * pos
            + 2) * pow2(l1) == (2 * pos + 1) * pow2(l1) + pow2(l1)) by (nonlinear_arith)
            requires
                pow2(level) == pow2(l1) * 2,
        ;
        assert forall|j: int|
            (2 * pos) * pow2(l1) <= j < (2 * pos + 1) * pow2(l1) implies #[trigger] leaf_same(
            nodes1,
            nodes2,
            j,
        ) by {
            assert(pos * pow2(level) <= j < (pos + 1) * pow2(level));
        }
        lemma_subtree_frame::<H>(nodes1, nodes2, l1, 2 * pos);
        assert forall|j: int|
            (2 * pos + 1) * pow2(l1) <= j < (2 * pos + 2) * pow2(l1) implies #[trigger] leaf_same(
            nodes1,
            nodes2,
            j,
        ) by {
            assert(pos * pow2(level) <= j < (pos + 1) * pow2(level));
        }
        lemma_subtree_frame::<H>(nodes1, nodes2, l1, 2 * pos + 1);
    }
}

/// One combining step seen from the subtree side: a present child at `pos`
/// and the (possibly absent) sibling subtree hash give the parent's hash.
pub proof fn lemma_subtree_step<H: Hashor>(
    nodes: Seq<IMTNode>,
    level: nat,
    pos: nat,
    h: Seq<u8>,
    sib: Option<crate::Hash>,
)
    requires
        subtree_hash::<H>(nodes, level, pos) == Some(h),
        opt_hash_view(sib) == subtree_hash::<H>(nodes, level, sib_of(pos)),
    ensures
        subtree_hash::<H>(nodes, (level + 1) as nat, pos / 2) == Some(
            combine_step::<H>(h, sib, pos % 2 == 0),
        ),
{
    if pos % 2 == 0 {
        assert(2 * (pos / 2) == pos);
        assert(2 * (pos / 2) + 1 == sib_of(pos));
    } else {
        assert(2 * (pos / 2) == sib_of(pos));
        assert(2 * (pos / 2) + 1 == pos);
    }
}

/// Climbing a correct sibling path from a correct subtree hash lands on the
/// hash of the enclosing subtree.
pub proof fn lemma_climb_subtree<H: Hashor>(
    nodes: Seq<IMTNode>,
    level: nat,
    pos: nat,
    h: Seq<u8>,
    sibs: Seq<Option<crate::Hash>>,
)
    requires
        subtree_hash::<H>(nodes, level, pos) == Some(h),
        forall|l: int|
            0 <= l < sibs.len() ==> opt_hash_view(#[trigger] sibs[l]) == subtree_hash::<H>(
                nodes,
                (level + l) as nat,
                sib_of(level_pos(pos, l as nat)),
            ),
    ensures
        subtree_hash::<H>(nodes, (level + sibs.len()) as nat, level_pos(pos, sibs.len()))
            == Some(climb::<H>(h, pos, sibs)),
    decreases sibs.len(),
{
    lemma2_to64();
    assert(level_pos(pos, 0) == pos / 1 == pos);
    if sibs.len() > 0 {
        let combined = combine_step::<H>(h, sibs[0], pos % 2 == 0);
        lemma_subtree_step::<H>(nodes, level, pos, h, sibs[0]);
        let rest = sibs.skip(1);
        assert forall|l: int| 0 <= l < rest.len() implies opt_hash_view(#[trigger] rest[l])
            == subtree_hash::<H>(
            nodes,
            ((level + 1) + l) as nat,
            sib_of(level_pos(pos / 2, l as nat)),
        ) by {
            assert(rest[l] == sibs[l + 1]);
            lemma_pos_half(pos, l as nat);
        }
        lemma_climb_subtree::<H>(nodes, (level + 1) as nat, pos / 2, combined, rest);
        lemma_pos_half(pos, rest.len());
    }
}

/// Halving a position and climbing `l` levels is climbing `l + 1` levels.
proof fn lemma_pos_half(pos: nat, l: nat)
    ensures
        level_pos(pos / 2, l) == level_pos(pos, (l + 1) as nat),
{
    lemma_pow2_pos(l);
    lemma2_to64();
    lemma_pow2_adds(1, l);
    lemma_div_denominator(pos as int, 2, pow2(l) as int);
}

/// The sibling path of the leaf at `idx` is correct: each entry matches the
/// sibling subtree hash along the leaf's path.
pub open spec fn spec_sibs_ok<H: Hashor>(
    nodes: Seq<IMTNode>,
    idx: nat,
    sibs: Seq<Option<crate::Hash>>,
) -> bool {
    forall|l: int|
        0 <= l < sibs.len() ==> opt_hash_view(#[trigger] sibs[l]) == subtree_hash::<H>(
            nodes,
            l as nat,
            sib_of(level_pos(idx, l as nat)),
        )
}

/// A node with a correct sibling path of full depth reconstructs the
/// engine's root.
pub proof fn lemma_root_from_path<H: Hashor>(
    nodes: Seq<IMTNode>,
    node: IMTNode,
    depth: nat,
    size: u64,
    sibs: Seq<Option<crate::Hash>>,
)
    requires
        nodes.len() == size as nat,
        0 < size,
        (node.index as nat) < nodes.len(),
        nodes[node.index as int] == node,
        sibs.len() == depth,
        size as nat <= pow2(depth),
        spec_sibs_ok::<H>(nodes, node.index as nat, sibs),
    ensures
        spec_imt_root::<H>(size, node, sibs) == spec_root_of::<H>(nodes, depth, size),
{
    let idx = node.index as nat;
    lemma_climb_subtree::<H>(nodes, 0, idx, spec_leaf_hash::<H>(node), sibs);
    lemma_pow2_pos(depth);
    lemma_basic_div(idx as int, pow2(depth) as int);
    assert(level_pos(idx, depth) == 0);
}

/// What a cache lookup yields: the entry at `level` and `pos`, absent when
/// never written.
pub open spec fn cache_at(
    hashes: Seq<Vec<Option<crate::Hash>>>,
    level: nat,
    pos: nat,
) -> Option<crate::Hash> {
    if level < hashes.len() && pos < hashes[level as int]@.len() {
        hashes[level as int]@[pos as int]
    } else {
        None
    }
}

/// Every cache entry at the levels up to `depth` agrees with the subtree
/// hash it caches (absent entries cache absent subtrees).
pub open spec fn cache_sound<H: Hashor>(
    hashes: Seq<Vec<Option<crate::Hash>>>,
    nodes: Seq<IMTNode>,
    depth: nat,
) -> bool {
    forall|l: nat, p: nat|
        l <= depth ==> opt_hash_view(#[trigger] cache_at(hashes, l, p)) == subtree_hash::<H>(
            nodes,
            l,
            p,
        )
}

/// Like `cache_sound`, but the path of the leaf at `idx` is exempt: the
/// entries above that leaf may be stale while a mutation is in flight.
pub open spec fn cache_sound_except<H: Hashor>(
    hashes: Seq<Vec<Option<crate::Hash>>>,
    nodes: Seq<IMTNode>,
    depth: nat,
    idx: nat,
) -> bool {
    forall|l: nat, p: nat|
        l <= depth && p != level_pos(idx, l) ==> opt_hash_view(#[trigger] cache_at(hashes, l, p))
            == subtree_hash::<H>(nodes, l, p)
}

/// No two nodes hold the same key.
pub open spec fn keys_unique(nodes: Seq<IMTNode>) -> bool {
    forall|i: int, j: int|
        0 <= i < nodes.len() && 0 <= j < nodes.len() && i != j ==> (#[trigger] nodes[i].key)@ != (
        #[trigger] nodes[j].key)@
}

/// Some node holds the key `k`.
pub open spec fn contains_key(nodes: Seq<IMTNode>, k: Seq<u8>) -> bool {
    exists|i: int| 0 <= i < nodes.len() && (#[trigger] nodes[i].key)@ == k
}

/// The slot of the node holding key `k` (unique under `keys_unique`).
pub open spec fn key_index(nodes: Seq<IMTNode>, k: Seq<u8>) -> int {
    choose|i: int| 0 <= i < nodes.len() && (#[trigger] nodes[i].key)@ == k
}

/// One node's link in the sorted list: its `next_key` is the zero key - then
/// its key is the maximum - or the least key strictly above its own.
pub open spec fn node_link_ok(nodes: Seq<IMTNode>, n: IMTNode) -> bool {
    if n.next_key@ == zero_key() {
        forall|j: int| 0 <= j < nodes.len() ==> !lex_lt(n.key@, (#[trigger] nodes[j].key)@)
    } else {
        &&& lex_lt(n.key@, n.next_key@)
        &&& contains_key(nodes, n.next_key@)
        &&& forall|j: int|
            0 <= j < nodes.len() ==> !(lex_lt(n.key@, (#[trigger] nodes[j].key)@) && lex_lt(
                nodes[j].key@,
                n.next_key@,
            ))
    }
}

/// The linked-list invariant: the zero-key node anchors slot 0 and every
/// node's `next_key` names its successor in ascending key order (the zero key
/// marking the end). Sorting the nodes by key therefore yields a chain.
pub open spec fn list_ok(nodes: Seq<IMTNode>) -> bool {
    &&& nodes.len() >= 1
    &&& nodes[0].key@ == zero_key()
    &&& forall|i: int| 0 <= i < nodes.len() ==> node_link_ok(nodes, #[trigger] nodes[i])
}

/// The smallest depth whose leaf span holds `size` leaves.
pub open spec fn depth_ok(size: nat, depth: nat) -> bool {
    &&& size <= pow2(depth)
    &&& depth > 0 ==> pow2((depth - 1) as nat) < size
}

/// At most one depth is adequate and minimal for a given size.
pub proof fn lemma_depth_unique(size: nat, d1: nat, d2: nat)
    requires
        depth_ok(size, d1),
        depth_ok(size, d2),
    ensures
        d1 == d2,
{
    if d1 < d2 {
        lemma_pow2_le(d1, (d2 - 1) as nat);
    }
    if d2 < d1 {
        lemma_pow2_le(d2, (d1 - 1) as nat);
    }
}

/// Powers of two are monotone.
pub proof fn lemma_pow2_le(e1: nat, e2: nat)
    requires
        e1 <= e2,
    ensures
        pow2(e1) <= pow2(e2),
{
    if e1 < e2 {
        lemma_pow2_strictly_increases(e1, e2);
    }
}

/// Depth growth: an insertion that brings the size to one past a power of two
/// deepens the tree by exactly one level; any other insertion leaves the depth
/// unchanged.
pub proof fn lemma_depth_growth(n: nat, d: nat, d2: nat)
    requires
        1 <= n,
        depth_ok(n, d),
        depth_ok(n + 1, d2),
    ensures
        n == pow2(d) ==> d2 == d + 1,
        n != pow2(d) ==> d2 == d,
{
    if n == pow2(d) {
        assert(depth_ok(n + 1, (d + 1) as nat)) by {
            lemma_pow2_adds(d, 1);
            lemma2_to64();
        }
        lemma_depth_unique(n + 1, d2, (d + 1) as nat);
    } else {
        assert(depth_ok(n + 1, d));
        lemma_depth_unique(n + 1, d2, d);
    }
}

/// A size that is exactly a power of two pins the depth to that exponent, so
/// `size == pow2(depth)` says precisely that the size is a power of two.
pub proof fn lemma_pow2_size_pins_depth(n: nat, d: nat, k: nat)
    requires
        depth_ok(n, d),
        n == pow2(k),
    ensures
        d == k,
{
    lemma_pow2_pos(k);
    if d < k {
        lemma_pow2_le((d + 1) as nat, k);
        lemma_pow2_adds(d, 1);
        lemma2_to64();
    }
    if d > k {
        lemma_pow2_le(k, (d - 1) as nat);
    }
}

/// The nodes occupy the leaf slots 0..size in insertion order: each node's
/// `index` is its slot.
pub open spec fn nodes_indexed(nodes: Seq<IMTNode>, size: u64) -> bool {
    &&& nodes.len() == size as nat
    &&& forall|i: int| 0 <= i < nodes.len() ==> (#[trigger] nodes[i].index) as int == i
}

/// The prover-side tree engine, generic over the hasher family `H`.
///
/// It stores the nodes by leaf slot, keeps a lazy per-level cache of internal
/// hashes for O(depth) sibling access, and maintains the committed root
/// incrementally.
pub struct Imt<H: Hashor> {
    pub root: crate::Hash,
    pub size: u64,
    pub depth: u8,
    pub nodes: Vec<IMTNode>,
    pub hashes: Vec<Vec<Option<crate::Hash>>>,
    pub hasher_family: core::marker::PhantomData<H>,
}

impl<H: Hashor> View for Imt<H> {
    type V = Seq<IMTNode>;

    open spec fn view(&self) -> Seq<IMTNode> {
        self.nodes@
    }
}

impl<H: Hashor> Imt<H> {
    /// The engine's invariant, reestablished after every mutation: the nodes
    /// fill slots 0..size, keys are unique, the linked list is sorted and
    /// anchored at the zero key, the depth is minimal and adequate, every
    /// cache entry agrees with the subtree it caches, and the root commits to
    /// the leaves and the size.
    pub open spec fn wf(self) -> bool {
        &&& nodes_indexed(self.nodes@, self.size)
        &&& keys_unique(self.nodes@)
        &&& list_ok(self.nodes@)
        &&& 1 <= self.size as nat
        &&& self.size as nat <= pow2(63)
        &&& self.depth <= 63
        &&& depth_ok(self.size as nat, self.depth as nat)
        &&& self.hashes@.len() == self.depth as nat + 1
        &&& cache_sound::<H>(self.hashes@, self.nodes@, self.depth as nat)
        &&& self.root@ == spec_root_of::<H>(self.nodes@, self.depth as nat, self.size)
    }

    /// Finds the slot of the node holding `key`.
    #[verifier::loop_isolation(false)]
    fn find_index(&self, key: &crate::Key) -> (r: usize)
        requires
            keys_unique(self.nodes@),
            contains_key(self.nodes@, key@),
        ensures
            0 <= r < self.nodes@.len(),
            self.nodes@[r as int].key@ == key@,
            r as int == key_index(self.nodes@, key@),
    {
        let mut i: usize = 0;
        while i < self.nodes.len()
            invariant
                0 <= i <= self.nodes@.len(),
                forall|j: int| 0 <= j < i ==> (#[trigger] self.nodes@[j].key)@ != key@,
            decreases self.nodes@.len() - i,
        {
            if bytes32_eq(&self.nodes[i].key, key) {
                proof {
                    let ci = key_index(self.nodes@, key@);
                    assert(0 <= ci < self.nodes@.len() && self.nodes@[ci].key@ == key@);
                    assert(self.nodes@[i as int].key@ == key@);
                    if ci != i as int {
                        assert(self.nodes@[ci].key@ != self.nodes@[i as int].key@);
                        assert(false);
                    }
                }
                return i;
            }
            i = i + 1;
        }
        proof {
            let ci = key_index(self.nodes@, key@);
            assert(0 <= ci < self.nodes@.len() && self.nodes@[ci].key@ == key@);
            assert(false);
        }
        0
    }

    /// Returns true iff some node holds `key`: the membership test callers
    /// use before inserting (the key must be absent) or updating (present).
    #[verifier::loop_isolation(false)]
    pub fn contains_node(&self, key: &crate::Key) -> (r: bool)
        ensures
            r == contains_key(self@, key@),
    {
        let mut i: usize = 0;
        while i < self.nodes.len()
            invariant
                0 <= i <= self.nodes@.len(),
                forall|j: int| 0 <= j < i ==> (#[trigger] self.nodes@[j].key)@ != key@,
            decreases self.nodes@.len() - i,
        {
            if bytes32_eq(&self.nodes[i].key, key) {
                return true;
            }
            i = i + 1;
        }
        false
    }

    /// Reads the cached hash at `level` and `pos`; absent if never written.
    fn cache_get(&self, level: usize, pos: u64) -> (r: Option<crate::Hash>)
        ensures
            r == cache_at(self.hashes@, level as nat, pos as nat),
    {
        if level < self.hashes.len() {
            let lvl = &self.hashes[level];
            if pos < lvl.len() as u64 {
                lvl[pos as usize]
            } else {
                None
            }
        } else {
            None
        }
    }

    /// Writes `h` into the cache at `level` and `pos`, padding the level with
    /// absent entries as needed; every other entry is untouched.
    #[verifier::loop_isolation(false)]
    fn cache_set(&mut self, level: usize, pos: u64, h: crate::Hash)
        requires
            level < old(self).hashes@.len(),
            pos <= usize::MAX as u64,
        ensures
            final(self).nodes@ == old(self).nodes@,
            final(self).size == old(self).size,
            final(self).depth == old(self).depth,
            final(self).root == old(self).root,
            final(self).hashes@.len() == old(self).hashes@.len(),
            forall|l: nat, p: nat|
                #![trigger cache_at(final(self).hashes@, l, p)]
                cache_at(final(self).hashes@, l, p) == if l == level as nat && p == pos as nat {
                    Some(h)
                } else {
                    cache_at(old(self).hashes@, l, p)
                },
    {
        let ghost old_hashes = self.hashes@;
        let mut lvl: Vec<Option<crate::Hash>> = Vec::new();
        core::mem::swap(&mut lvl, &mut self.hashes[level]);
        let ghost orig = lvl@;
        let pos_usize = pos as usize;
        while lvl.len() <= pos_usize
            invariant
                orig.len() <= lvl@.len(),
                forall|p: int|
                    0 <= p < lvl@.len() ==> #[trigger] lvl@[p] == if p < orig.len() {
                        orig[p]
                    } else {
                        None
                    },
            decreases pos_usize + 1 - lvl@.len(),
        {
            lvl.push(None);
        }
        let ghost padded = lvl@;
        lvl[pos_usize] = Some(h);
        let ghost newlvl = lvl@;
        self.hashes[level] = lvl;
        proof {
            let fh = self.hashes@;
            assert(fh[level as int]@ == newlvl);
            assert(newlvl == padded.update(pos_usize as int, Some(h)));
            assert forall|l: nat, p: nat|
                cache_at(fh, l, p) == (if l == level as nat && p == pos as nat {
                    Some(h)
                } else {
                    cache_at(old_hashes, l, p)
                }) by {
                if l < fh.len() {
                    if l == level as nat {
                        assert(old_hashes[l as int]@ == orig);
                        if p != pos as nat && p < newlvl.len() {
                            assert(newlvl[p as int] == padded[p as int]);
                        }
                    } else {
                        assert(fh[l as int] == old_hashes[l as int]);
                    }
                }
            }
        }
    }

    /// Recomputes the hashes on the path of the node holding `node_key`, from
    /// its leaf up to the root, caching every recomputed entry, and registers
    /// the new root. Returns the node's sibling path as read along the way.
    #[verifier::loop_isolation(false)]
    fn refresh_tree(&mut self, node_key: &crate::Key) -> (sibs: Vec<Option<crate::Hash>>)
        requires
            nodes_indexed(old(self).nodes@, old(self).size),
            keys_unique(old(self).nodes@),
            contains_key(old(self).nodes@, node_key@),
            1 <= old(self).size as nat,
            old(self).size as nat <= pow2(63),
            old(self).depth <= 63,
            old(self).size as nat <= pow2(old(self).depth as nat),
            old(self).hashes@.len() == old(self).depth as nat + 1,
            cache_sound_except::<H>(
                old(self).hashes@,
                old(self).nodes@,
                old(self).depth as nat,
                key_index(old(self).nodes@, node_key@) as nat,
            ),
        ensures
            final(self).nodes@ == old(self).nodes@,
            final(self).size == old(self).size,
            final(self).depth == old(self).depth,
            final(self).hashes@.len() == old(self).hashes@.len(),
            cache_sound::<H>(final(self).hashes@, final(self).nodes@, final(self).depth as nat),
            final(self).root@ == spec_root_of::<H>(
                final(self).nodes@,
                final(self).depth as nat,
                final(self).size,
            ),
            sibs@.len() == final(self).depth as nat,
            spec_sibs_ok::<H>(
                final(self).nodes@,
                key_index(final(self).nodes@, node_key@) as nat,
                sibs@,
            ),
    {
        let idx = self.find_index(node_key);
        let node = self.nodes[idx];
        let mut index: u64 = node.index;
        let ghost nodes = self.nodes@;
        let ghost gidx = index as nat;
        let mut hash = node.hash(H::fresh());
        proof {
            lemma2_to64();
            assert(subtree_hash::<H>(nodes, 0, gidx) == Some(hash@));
            assert(level_pos(gidx, 0) == gidx);
        }
        self.cache_set(0, index, hash);
        let mut siblings: Vec<Option<crate::Hash>> = Vec::new();
        let depth = self.depth;
        let mut level: u8 = 0;
        while level < depth
            invariant
                level <= depth,
                self.nodes@ == nodes,
                self.size == old(self).size,
                self.depth == depth,
                self.hashes@.len() == depth as nat + 1,
                index as nat == level_pos(gidx, level as nat),
                index as nat <= gidx,
                subtree_hash::<H>(nodes, level as nat, index as nat) == Some(hash@),
                siblings@.len() == level as nat,
                forall|l: int|
                    0 <= l < level ==> opt_hash_view(#[trigger] siblings@[l]) == subtree_hash::<H>(
                        nodes,
                        l as nat,
                        sib_of(level_pos(gidx, l as nat)),
                    ),
                forall|l: nat, p: nat|
                    l <= depth as nat && (l > level as nat ==> p != level_pos(gidx, l))
                        ==> opt_hash_view(#[trigger] cache_at(self.hashes@, l, p))
                        == subtree_hash::<H>(nodes, l, p),
            decreases depth - level,
        {
            let sibling_index = if index % 2 == 0 {
                index + 1
            } else {
                index - 1
            };
            proof {
                assert(sibling_index as nat == sib_of(index as nat));
            }
            let sibling_hash = self.cache_get(level as usize, sibling_index);
            proof {
                assert(opt_hash_view(sibling_hash) == subtree_hash::<H>(
                    nodes,
                    level as nat,
                    sib_of(index as nat),
                ));
            }
            siblings.push(sibling_hash);
            let even = index % 2 == 0;
            let ghost prev = hash@;
            let mut hasher = H::fresh();
            match sibling_hash {
                None => {
                    hasher.update_hashor(hash.as_slice());
                },
                Some(s) => {
                    if even {
                        hasher.update_hashor(hash.as_slice());
                        hasher.update_hashor(s.as_slice());
                    } else {
                        hasher.update_hashor(s.as_slice());
                        hasher.update_hashor(hash.as_slice());
                    }
                },
            }
            proof {
                match sibling_hash {
                    None => assert(hasher.absorbed() =~= prev),
                    Some(s) => {
                        if even {
                            assert(hasher.absorbed() =~= prev + s@);
                        } else {
                            assert(hasher.absorbed() =~= s@ + prev);
                        }
                    },
                }
            }
            hasher.finalize_hashor_into(&mut hash);
            proof {
                assert(hash@ == combine_step::<H>(prev, sibling_hash, index as nat % 2 == 0));
                lemma_subtree_step::<H>(nodes, level as nat, index as nat, prev, sibling_hash);
                lemma_level_pos_step(gidx, level as nat);
            }
            index = index / 2;
            let ghost pre_cache = self.hashes@;
            self.cache_set((level as usize) + 1, index, hash);
            level = level + 1;
            proof {
                assert forall|l: nat, p: nat|
                    l <= depth as nat && (l > level as nat ==> p != level_pos(gidx, l))
                        implies opt_hash_view(#[trigger] cache_at(self.hashes@, l, p))
                    == subtree_hash::<H>(nodes, l, p) by {
                    if l == level as nat && p == index as nat {
                        assert(cache_at(self.hashes@, l, p) == Some(hash));
                    } else {
                        assert(cache_at(self.hashes@, l, p) == cache_at(pre_cache, l, p));
                        assert(l > (level - 1) as nat ==> p != level_pos(gidx, l));
                    }
                }
            }
        }
        proof {
            lemma_pow2_pos(depth as nat);
            lemma_basic_div(gidx as int, pow2(depth as nat) as int);
            assert(level_pos(gidx, depth as nat) == 0);
            assert(subtree_hash::<H>(nodes, depth as nat, 0) == Some(hash@));
        }
        let size_bytes = u64_be_bytes(self.size);
        let mut hasher = H::fresh();
        hasher.update_hashor(hash.as_slice());
        hasher.update_hashor(size_bytes.as_slice());
        proof {
            assert(hasher.absorbed() =~= hash@ + size_be_bytes(self.size));
        }
        let mut root: crate::Hash = [0u8; 32];
        hasher.finalize_hashor_into(&mut root);
        self.root = root;
        siblings
    }

    /// Recomputes the minimal adequate depth for the current size and pads
    /// the cache with the new (empty) levels. Depth never shrinks, and grows
    /// by at most one per insertion.
    #[verifier::loop_isolation(false)]
    fn refresh_depth(&mut self)
        requires
            2 <= old(self).size,
            old(self).size as nat <= pow2(63),
            old(self).depth <= 63,
            depth_ok((old(self).size - 1) as nat, old(self).depth as nat),
            old(self).hashes@.len() == old(self).depth as nat + 1,
        ensures
            final(self).nodes@ == old(self).nodes@,
            final(self).size == old(self).size,
            final(self).root == old(self).root,
            depth_ok(final(self).size as nat, final(self).depth as nat),
            old(self).depth <= final(self).depth <= 63,
            final(self).hashes@.len() == final(self).depth as nat + 1,
            forall|l: nat, p: nat|
                #![trigger cache_at(final(self).hashes@, l, p)]
                cache_at(final(self).hashes@, l, p) == cache_at(old(self).hashes@, l, p),
    {
        let mut d: u8 = 0;
        let mut p: u64 = 1;
        proof {
            lemma2_to64();
        }
        while p < self.size
            invariant
                d <= 63,
                p as nat == pow2(d as nat),
                d > 0 ==> pow2((d - 1) as nat) < self.size as nat,
            decreases 64 - d,
        {
            proof {
                lemma2_to64();
                lemma2_to64_rest();
                if d >= 63 {
                    lemma_pow2_le(63, d as nat);
                    assert(false);
                }
                lemma_pow2_adds(d as nat, 1);
                lemma_pow2_le((d + 1) as nat, 63);
                assert(pow2(63) == 0x8000000000000000);
            }
            p = p * 2;
            d = d + 1;
        }
        proof {
            // the old depth was minimal for size - 1, so the new one is no
            // smaller
            if d < self.depth {
                lemma_pow2_le(d as nat, (self.depth - 1) as nat);
                assert(false);
            }
        }
        self.depth = d;
        let ghost old_cache = self.hashes@;
        while self.hashes.len() < (d as usize) + 1
            invariant
                self.hashes@.len() >= old_cache.len(),
                self.hashes@.len() <= d as nat + 1,
                forall|l: int| 0 <= l < old_cache.len() ==> self.hashes@[l] == old_cache[l],
                forall|l: int|
                    old_cache.len() <= l < self.hashes@.len() ==> (#[trigger] self.hashes@[l])@
                        =~= Seq::<Option<crate::Hash>>::empty(),
                self.nodes@ == old(self).nodes@,
                self.size == old(self).size,
                self.root == old(self).root,
                self.depth == d,
            decreases (d as int) + 1 - self.hashes@.len(),
        {
            let empty: Vec<Option<crate::Hash>> = Vec::new();
            self.hashes.push(empty);
        }
        proof {
            assert forall|l: nat, p2: nat|
                cache_at(self.hashes@, l, p2) == cache_at(old_cache, l, p2) by {
                if l < old_cache.len() {
                    assert(self.hashes@[l as int] == old_cache[l as int]);
                } else if l < self.hashes@.len() {
                    assert(self.hashes@[l as int]@.len() == 0);
                }
            }
        }
    }

    /// Constructs a fresh tree holding only the zero-key node: size 1, depth
    /// 0, and a reproducible root.
    pub fn new() -> (imt: Self)
        ensures
            imt.wf(),
            imt.size == 1,
            imt.depth == 0,
            imt@.len() == 1,
            imt@[0].index == 0,
            imt@[0].key@ == zero_key(),
            imt@[0].value@ == zero_key(),
            imt@[0].next_key@ == zero_key(),
            imt.root@ == spec_root_of::<H>(imt@, 0, 1),
    {
        let init_node = IMTNode { index: 0, key: [0u8; 32], value: [0u8; 32], next_key: [0u8; 32] };
        let mut nodes: Vec<IMTNode> = Vec::new();
        nodes.push(init_node);
        let mut hashes: Vec<Vec<Option<crate::Hash>>> = Vec::new();
        let level0: Vec<Option<crate::Hash>> = Vec::new();
        hashes.push(level0);
        let mut imt = Imt {
            root: [0u8; 32],
            size: 1,
            depth: 0,
            nodes,
            hashes,
            hasher_family: core::marker::PhantomData,
        };
        proof {
            lemma2_to64();
            lemma2_to64_rest();
            lemma_pow2_pos(63);
            assert(init_node.key@ =~= zero_key());
            assert(imt.nodes@[0].key == init_node.key);
            assert(contains_key(imt.nodes@, init_node.key@));
            assert(key_index(imt.nodes@, init_node.key@) == 0) by {
                let ci = key_index(imt.nodes@, init_node.key@);
                assert(0 <= ci < imt.nodes@.len());
            }
            assert forall|l: nat, p: nat|
                l <= 0 && p != level_pos(0, l) implies opt_hash_view(
                #[trigger] cache_at(imt.hashes@, l, p),
            ) == subtree_hash::<H>(imt.nodes@, l, p) by {
                assert(cache_at(imt.hashes@, l, p) is None);
                assert(level_pos(0nat, 0nat) == 0nat);
                assert(p >= 1);
            }
        }
        let zero: crate::Key = [0u8; 32];
        imt.refresh_tree(&zero);
        proof {
            assert(imt.wf()) by {
                lemma2_to64();
                lemma_lex_irrefl(imt.nodes@[0].key@);
                assert(node_link_ok(imt.nodes@, imt.nodes@[0]));
            }
        }
        imt
    }

    /// Returns the sibling path of the node holding `node_key`: one optional
    /// hash per level, leaf level first. The node and this path reconstruct
    /// the committed root.
    #[verifier::loop_isolation(false)]
    pub fn siblings(&self, node_key: &crate::Key) -> (sibs: Vec<Option<crate::Hash>>)
        requires
            self.wf(),
            contains_key(self@, node_key@),
        ensures
            sibs@.len() == self.depth as nat,
            spec_sibs_ok::<H>(self@, key_index(self@, node_key@) as nat, sibs@),
            spec_imt_root::<H>(self.size, self@[key_index(self@, node_key@)], sibs@)
                == self.root@,
    {
        let idx = self.find_index(node_key);
        let node = self.nodes[idx];
        let mut siblings: Vec<Option<crate::Hash>> = Vec::new();
        let mut index: u64 = node.index;
        let mut level: u8 = 0;
        proof {
            lemma2_to64();
        }
        while level < self.depth
            invariant
                level <= self.depth,
                index as nat == level_pos(idx as nat, level as nat),
                index as nat <= idx as nat,
                siblings@.len() == level as nat,
                forall|l: int|
                    0 <= l < level ==> opt_hash_view(#[trigger] siblings@[l]) == subtree_hash::<H>(
                        self@,
                        l as nat,
                        sib_of(level_pos(idx as nat, l as nat)),
                    ),
            decreases self.depth - level,
        {
            let sibling_index = if index % 2 == 0 {
                index + 1
            } else {
                index - 1
            };
            proof {
                assert(sibling_index as nat == sib_of(index as nat));
            }
            let sibling_hash = self.cache_get(level as usize, sibling_index);
            siblings.push(sibling_hash);
            proof {
                lemma_level_pos_step(idx as nat, level as nat);
            }
            index = index / 2;
            level = level + 1;
        }
        proof {
            lemma_root_from_path::<H>(self@, node, self.depth as nat, self.size, siblings@);
        }
        siblings
    }

    /// Finds the low-nullifier node for `node_key`: the unique existing node
    /// whose key span covers the candidate key.
    #[verifier::loop_isolation(false)]
    pub fn low_nullifier(&self, node_key: &crate::Key) -> (ln: IMTNode)
        requires
            self.wf(),
            !contains_key(self@, node_key@),
        ensures
            spec_is_ln_of(ln, node_key@),
            0 <= spec_ln_index(self@, node_key@) < self@.len(),
            ln == self@[spec_ln_index(self@, node_key@)],
    {
        proof {
            lemma_ln_exists(self.nodes@, node_key@);
        }
        let mut i: usize = 0;
        while i < self.nodes.len()
            invariant
                0 <= i <= self.nodes@.len(),
                forall|j: int| 0 <= j < i ==> !spec_is_ln_of(#[trigger] self.nodes@[j], node_key@),
            decreases self.nodes@.len() - i,
        {
            let candidate = self.nodes[i];
            if candidate.is_ln_of(node_key) {
                proof {
                    let li = spec_ln_index(self@, node_key@);
                    assert(0 <= li < self@.len() && spec_is_ln_of(self@[li], node_key@));
                    lemma_ln_unique(self@, node_key@, i as int, li);
                }
                return candidate;
            }
            i = i + 1;
        }
        proof {
            let wi = choose|wi: int|
                0 <= wi < self@.len() && spec_is_ln_of(#[trigger] self@[wi], node_key@);
            assert(false);
        }
        self.nodes[0]
    }

    /// Updates the value stored under `key` and returns the update witness
    /// whose verification replays the change: it carries the pre-update node
    /// and reproduces this tree's new root from the old one.
    pub fn update_node(&mut self, key: crate::Key, value: crate::Value) -> (m: IMTMutate)
        requires
            old(self).wf(),
            contains_key(old(self)@, key@),
        ensures
            final(self).wf(),
            final(self).size == old(self).size,
            final(self).depth == old(self).depth,
            final(self)@ == old(self)@.update(
                key_index(old(self)@, key@),
                IMTNode { value: value, ..old(self)@[key_index(old(self)@, key@)] },
            ),
            final(self).root@ == spec_root_of::<H>(
                final(self)@,
                final(self).depth as nat,
                final(self).size,
            ),
            m is Update,
            m->Update_0.old_root == old(self).root,
            m->Update_0.size == old(self).size,
            m->Update_0.node == old(self)@[key_index(old(self)@, key@)],
            m->Update_0.new_value == value,
            m->Update_0.node_siblings@.len() == old(self).depth as nat,
            spec_sibs_ok::<H>(
                old(self)@,
                key_index(old(self)@, key@) as nat,
                m->Update_0.node_siblings@,
            ),
            spec_mutate_verify::<H>(m, old(self).root@) == Ok::<Seq<u8>, crate::ImtError>(
                final(self).root@,
            ),
    {
        let old_root = self.root;
        let idx = self.find_index(&key);
        let old_node = self.nodes[idx];
        let mut new_node = old_node;
        new_node.value = value;
        let ghost nodes0 = self.nodes@;
        self.nodes[idx] = new_node;
        let ghost nodes1 = self.nodes@;
        proof {
            lemma_update_value_facts::<H>(nodes0, nodes1, idx as int, value);
            assert(contains_key(nodes1, key@)) by {
                assert(nodes1[idx as int].key@ == key@);
            }
            assert(key_index(nodes1, key@) == idx as int) by {
                let ci = key_index(nodes1, key@);
                assert(0 <= ci < nodes1.len() && nodes1[ci].key@ == key@);
                if ci != idx as int {
                    assert(nodes1[ci].key@ != nodes1[idx as int].key@);
                }
            }
            assert(cache_sound_except::<H>(
                self.hashes@,
                nodes1,
                self.depth as nat,
                idx as nat,
            )) by {
                assert forall|l: nat, p: nat| l <= self.depth as nat && p != level_pos(
                    idx as nat,
                    l,
                ) implies opt_hash_view(#[trigger] cache_at(self.hashes@, l, p))
                    == subtree_hash::<H>(nodes1, l, p) by {
                    assert(opt_hash_view(cache_at(self.hashes@, l, p)) == subtree_hash::<H>(
                        nodes0,
                        l,
                        p,
                    ));
                    assert(subtree_hash::<H>(nodes1, l, p) == subtree_hash::<H>(nodes0, l, p));
                }
            }
        }
        let node_siblings = self.refresh_tree(&key);
        proof {
            let d = self.depth as nat;
            assert forall|l: int| 0 <= l < node_siblings@.len() implies opt_hash_view(
                #[trigger] node_siblings@[l],
            ) == subtree_hash::<H>(nodes0, l as nat, sib_of(level_pos(idx as nat, l as nat))) by {
                let sp = sib_of(level_pos(idx as nat, l as nat));
                assert(sp != level_pos(idx as nat, l as nat));
                assert(subtree_hash::<H>(nodes1, l as nat, sp) == subtree_hash::<H>(
                    nodes0,
                    l as nat,
                    sp,
                ));
            }
            lemma_root_from_path::<H>(nodes0, old_node, d, self.size, node_siblings@);
            lemma_root_from_path::<H>(nodes1, new_node, d, self.size, node_siblings@);
        }
        IMTMutate::update(old_root, self.size, old_node, node_siblings, value)
    }

    /// Inserts a new `(key, value)` pair and returns the insert witness whose
    /// verification replays the insertion: it reproduces this tree's new root
    /// from the old one.
    pub fn insert_node(&mut self, key: crate::Key, value: crate::Value) -> (m: IMTMutate)
        requires
            old(self).wf(),
            !contains_key(old(self)@, key@),
            // one more leaf must still fit a 63-level tree
            old(self).size < 0x8000000000000000u64,
        ensures
            final(self).wf(),
            final(self).size == old(self).size + 1,
            depth_ok(final(self).size as nat, final(self).depth as nat),
            final(self)@ == spec_insert_nodes(old(self)@, key, value, old(self).size),
            final(self).root@ == spec_root_of::<H>(
                final(self)@,
                final(self).depth as nat,
                final(self).size,
            ),
            m is Insert,
            m->Insert_0.old_root == old(self).root,
            m->Insert_0.old_size == old(self).size,
            m->Insert_0.ln_node == old(self)@[spec_ln_index(old(self)@, key@)],
            m->Insert_0.node == (IMTNode {
                index: old(self).size,
                key: key,
                value: value,
                next_key: old(self)@[spec_ln_index(old(self)@, key@)].next_key,
            }),
            m->Insert_0.ln_siblings@.len() == old(self).depth as nat,
            spec_sibs_ok::<H>(
                old(self)@,
                spec_ln_index(old(self)@, key@) as nat,
                m->Insert_0.ln_siblings@,
            ),
            m->Insert_0.node_siblings@.len() == final(self).depth as nat,
            spec_sibs_ok::<H>(final(self)@, old(self).size as nat, m->Insert_0.node_siblings@),
            m->Insert_0.updated_ln_siblings@.len() == final(self).depth as nat,
            spec_sibs_ok::<H>(
                final(self)@,
                spec_ln_index(old(self)@, key@) as nat,
                m->Insert_0.updated_ln_siblings@,
            ),
            spec_mutate_verify::<H>(m, old(self).root@) == Ok::<Seq<u8>, crate::ImtError>(
                final(self).root@,
            ),
    {
        let ghost nodes0 = self.nodes@;
        let ghost old_depth = self.depth as nat;
        let old_root = self.root;
        let old_size = self.size;

        // Find the low nullifier and capture its sibling path in the old tree.
        let ln_node = self.low_nullifier(&key);
        let ghost ln_i = spec_ln_index(nodes0, key@);
        proof {
            assert(ln_node.index as int == ln_i);
            assert(key_index(nodes0, ln_node.key@) == ln_i) by {
                assert(contains_key(nodes0, ln_node.key@)) by {
                    assert(nodes0[ln_i].key@ == ln_node.key@);
                }
                let ci = key_index(nodes0, ln_node.key@);
                assert(0 <= ci < nodes0.len() && nodes0[ci].key@ == ln_node.key@);
                if ci != ln_i {
                    assert(nodes0[ci].key@ != nodes0[ln_i].key@);
                }
            }
        }
        let ln_siblings = self.siblings(&ln_node.key);

        // Rewrite the low nullifier's link and refresh its path.
        let ln_idx = self.find_index(&ln_node.key);
        let mut updated_ln = ln_node;
        updated_ln.next_key = key;
        self.nodes[ln_idx] = updated_ln;
        let ghost nodes1 = self.nodes@;
        proof {
            let un = nodes0.update(ln_i, updated_ln);
            assert(un.len() == nodes0.len());
            assert forall|j: int| j != ln_i implies #[trigger] leaf_same(nodes0, nodes1, j) by {
                if 0 <= j < nodes0.len() {
                    assert(un[j] == nodes0[j]);
                }
            }
            lemma_off_path_frame::<H>(nodes0, nodes1, ln_i as nat);
            assert forall|j: int| 0 <= j < nodes1.len() implies (#[trigger] nodes1[j].key)@
                == nodes0[j].key@ by {
                if j != ln_i {
                    assert(un[j] == nodes0[j]);
                }
            }
            assert(keys_unique(nodes1));
            assert(nodes_indexed(nodes1, old_size)) by {
                assert forall|j: int| 0 <= j < nodes1.len() implies (#[trigger] nodes1[j].index)
                    as int == j by {
                    if j != ln_i {
                        assert(un[j] == nodes0[j]);
                    }
                }
            }
            assert(contains_key(nodes1, ln_node.key@)) by {
                assert(nodes1[ln_i].key@ == ln_node.key@);
            }
            assert(key_index(nodes1, ln_node.key@) == ln_i) by {
                let ci = key_index(nodes1, ln_node.key@);
                assert(0 <= ci < nodes1.len() && nodes1[ci].key@ == ln_node.key@);
                if ci != ln_i {
                    assert(nodes1[ci].key@ != nodes1[ln_i].key@);
                }
            }
            assert forall|l: nat, p: nat|
                l <= old_depth && p != level_pos(ln_i as nat, l) implies opt_hash_view(
                #[trigger] cache_at(self.hashes@, l, p),
            ) == subtree_hash::<H>(nodes1, l, p) by {
                assert(opt_hash_view(cache_at(self.hashes@, l, p)) == subtree_hash::<H>(
                    nodes0,
                    l,
                    p,
                ));
                assert(subtree_hash::<H>(nodes1, l, p) == subtree_hash::<H>(nodes0, l, p));
            }
        }
        self.refresh_tree(&ln_node.key);

        // Grow: one more leaf, and possibly one more level.
        proof {
            lemma2_to64_rest();
        }
        self.size = self.size + 1;
        self.refresh_depth();
        let ghost new_depth = self.depth as nat;
        let ghost mid_cache = self.hashes@;

        // Create and place the new node, then refresh its path.
        let node = IMTNode { index: old_size, key, value, next_key: ln_node.next_key };
        self.nodes.push(node);
        let ghost nodes2 = self.nodes@;
        proof {
            assert(nodes2 == nodes1.push(node));
            assert forall|j: int| j != old_size as int implies #[trigger] leaf_same(
                nodes1,
                nodes2,
                j,
            ) by {
                if 0 <= j < nodes1.len() {
                    assert(nodes2[j] == nodes1[j]);
                }
            }
            lemma_off_path_frame::<H>(nodes1, nodes2, old_size as nat);
            // the grown list is still a well-formed sorted linked list
            lemma_insert_list_ok(nodes0, key, value, old_size);
            assert(updated_ln == (IMTNode { next_key: key, ..nodes0[ln_i] }));
            assert(nodes2 == spec_insert_nodes(nodes0, key, value, old_size));
            assert(nodes_indexed(nodes2, self.size));
            assert(contains_key(nodes2, key@)) by {
                assert(nodes2[old_size as int].key@ == key@);
            }
            assert(key_index(nodes2, key@) == old_size as int) by {
                let ci = key_index(nodes2, key@);
                assert(0 <= ci < nodes2.len() && nodes2[ci].key@ == key@);
                if ci != old_size as int {
                    assert(nodes2[ci].key@ != nodes2[old_size as int].key@);
                }
            }
            // the cache is sound for the new list everywhere off the new
            // leaf's path: old levels by the frame, new levels are empty and
            // cache absent subtrees
            assert forall|l: nat, p: nat|
                l <= new_depth && p != level_pos(old_size as nat, l) implies opt_hash_view(
                #[trigger] cache_at(self.hashes@, l, p),
            ) == subtree_hash::<H>(nodes2, l, p) by {
                if l <= old_depth {
                    assert(opt_hash_view(cache_at(self.hashes@, l, p)) == subtree_hash::<H>(
                        nodes1,
                        l,
                        p,
                    ));
                    assert(subtree_hash::<H>(nodes2, l, p) == subtree_hash::<H>(nodes1, l, p));
                } else {
                    assert(cache_at(self.hashes@, l, p) is None);
                    lemma_pow2_le((old_depth + 1) as nat, l);
                    lemma_pow2_adds(old_depth, 1);
                    lemma2_to64();
                    assert(pow2((old_depth + 1) as nat) == pow2(old_depth) * 2);
                    assert(pow2(l) >= old_size as nat + 1);
                    assert(level_pos(old_size as nat, l) == 0) by {
                        lemma_pow2_pos(l);
                        lemma_basic_div(old_size as int, pow2(l) as int);
                    }
                    assert(p >= 1);
                    assert(p * pow2(l) >= pow2(l)) by (nonlinear_arith)
                        requires
                            p >= 1,
                            pow2(l) >= 0,
                    ;
                    lemma_subtree_some::<H>(nodes2, l, p);
                    assert(subtree_hash::<H>(nodes2, l, p) is None);
                }
            }
        }
        let node_siblings = self.refresh_tree(&key);
        proof {
            assert(key_index(nodes2, ln_node.key@) == ln_i) by {
                assert(nodes2[ln_i].key@ == ln_node.key@);
                let ci = key_index(nodes2, ln_node.key@);
                assert(0 <= ci < nodes2.len() && nodes2[ci].key@ == ln_node.key@);
                if ci != ln_i {
                    assert(nodes2[ci].key@ != nodes2[ln_i].key@);
                }
            }
            assert(self.wf());
        }
        let updated_ln_siblings = self.siblings(&ln_node.key);
        let m = IMTMutate::insert(
            old_root,
            old_size,
            ln_node,
            ln_siblings,
            node,
            node_siblings,
            updated_ln_siblings,
        );
        proof {
            let w = m->Insert_0;
            let expected = old_root@;
            let new_size = self.size;
            // the witness's low nullifier is valid against the old root
            assert(spec_is_ln_of(w.ln_node, w.node.key@));
            assert(spec_imt_root::<H>(old_size, ln_node, ln_siblings@) == old_root@);
            assert(crate::insert::spec_valid_ln::<H>(w));
            // both recomputed roots are this tree's new root
            assert((w.old_size + 1) as u64 == new_size);
            lemma_root_from_path::<H>(nodes2, node, new_depth, new_size, node_siblings@);
            assert(spec_imt_root::<H>(new_size, w.node, w.node_siblings@) == self.root@);
            assert(crate::insert::spec_updated_ln(w) == updated_ln);
            assert(nodes2[ln_i] == updated_ln);
            assert(spec_imt_root::<H>(new_size, updated_ln, updated_ln_siblings@) == self.root@);
            assert(crate::insert::spec_insert_verify::<H>(w, expected) == Ok::<
                Seq<u8>,
                crate::ImtError,
            >(self.root@));
        }
        m
    }
}

/// Replacing the low nullifier in an insert witness with any other node of a
/// well-formed tree is rejected with exactly `InvalidLn`: the low nullifier
/// of a key is unique, so every other node fails the ordering relation.
pub proof fn lemma_other_node_ln_rejected<H: Hashor>(
    nodes: Seq<IMTNode>,
    w: IMTInsert,
    j: int,
    r: Seq<u8>,
)
    requires
        keys_unique(nodes),
        list_ok(nodes),
        !contains_key(nodes, w.node.key@),
        r == w.old_root@,
        0 <= j < nodes.len(),
        w.ln_node == nodes[j],
        j != spec_ln_index(nodes, w.node.key@),
    ensures
        crate::insert::spec_insert_verify::<H>(w, r) == Err::<Seq<u8>, crate::ImtError>(
            crate::ImtError::InvalidLn,
        ),
{
    if spec_is_ln_of(w.ln_node, w.node.key@) {
        lemma_ln_exists(nodes, w.node.key@);
        let li = spec_ln_index(nodes, w.node.key@);
        assert(0 <= li < nodes.len() && spec_is_ln_of(nodes[li], w.node.key@));
        lemma_ln_unique(nodes, w.node.key@, j, li);
        assert(false);
    }
}

/// Determinism: two well-formed trees holding the same nodes commit to the
/// same size, depth and root. Since the ensures of `new`, `insert_node` and
/// `update_node` pin each post-state view as a function of the pre-state view
/// and the arguments alone, identical mutation sequences against the same
/// hasher family yield identical root sequences.
pub proof fn lemma_engine_deterministic<H: Hashor>(t1: Imt<H>, t2: Imt<H>)
    requires
        t1.wf(),
        t2.wf(),
        t1@ == t2@,
    ensures
        t1.size == t2.size,
        t1.depth == t2.depth,
        t1.root@ == t2.root@,
{
    lemma_depth_unique(t1.size as nat, t1.depth as nat, t2.depth as nat);
}

/// Changing one node's value leaves the keys, the links, and every off-path
/// subtree untouched.
proof fn lemma_update_value_facts<H: Hashor>(
    nodes0: Seq<IMTNode>,
    nodes1: Seq<IMTNode>,
    idx: int,
    value: crate::Value,
)
    requires
        keys_unique(nodes0),
        list_ok(nodes0),
        0 <= idx < nodes0.len(),
        nodes1 == nodes0.update(idx, IMTNode { value: value, ..nodes0[idx] }),
    ensures
        keys_unique(nodes1),
        list_ok(nodes1),
        forall|j: int| 0 <= j < nodes1.len() ==> (#[trigger] nodes1[j].key)@ == nodes0[j].key@,
        forall|l: nat, p: nat|
            p != level_pos(idx as nat, l) ==> subtree_hash::<H>(nodes0, l, p)
                == #[trigger] subtree_hash::<H>(nodes1, l, p),
{
    let un = nodes0.update(idx, IMTNode { value: value, ..nodes0[idx] });
    assert(un.len() == nodes0.len());
    assert forall|j: int| j != idx implies #[trigger] leaf_same(nodes0, nodes1, j) by {
        if 0 <= j < nodes0.len() {
            assert(un[j] == nodes0[j]);
        }
    }
    lemma_off_path_frame::<H>(nodes0, nodes1, idx as nat);
    assert(forall|j: int|
        0 <= j < nodes1.len() ==> (#[trigger] nodes1[j].key)@ == nodes0[j].key@ && nodes1[j].next_key@
            == nodes0[j].next_key@);
    assert forall|i: int| 0 <= i < nodes1.len() implies node_link_ok(nodes1, #[trigger] nodes1[i]) by {
        assert(node_link_ok(nodes0, nodes0[i]));
        let n = nodes1[i];
        if n.next_key@ == zero_key() {
            assert forall|j: int| 0 <= j < nodes1.len() implies !lex_lt(
                n.key@,
                (#[trigger] nodes1[j].key)@,
            ) by {
                assert(nodes1[j].key@ == nodes0[j].key@);
            }
        } else {
            assert(contains_key(nodes1, n.next_key@)) by {
                let w = choose|w: int|
                    0 <= w < nodes0.len() && (#[trigger] nodes0[w].key)@ == nodes0[i].next_key@;
                assert(nodes1[w].key@ == n.next_key@);
            }
            assert forall|j: int| 0 <= j < nodes1.len() implies !(lex_lt(
                n.key@,
                (#[trigger] nodes1[j].key)@,
            ) && lex_lt(nodes1[j].key@, n.next_key@)) by {
                assert(nodes1[j].key@ == nodes0[j].key@);
            }
        }
    }
}

/// Lexicographic order is irreflexive.
pub proof fn lemma_lex_irrefl(a: Seq<u8>)
    ensures
        !lex_lt(a, a),
    decreases a.len(),
{
    if a.len() > 0 {
        lemma_lex_irrefl(a.skip(1));
    }
}

/// The slot of some low nullifier of `k` (unique when the list invariant
/// holds).
pub open spec fn spec_ln_index(nodes: Seq<IMTNode>, k: Seq<u8>) -> int {
    choose|i: int| 0 <= i < nodes.len() && spec_is_ln_of(#[trigger] nodes[i], k)
}

/// Two nodes of a well-formed list that are both low nullifiers of the same
/// key are the same node.
pub proof fn lemma_ln_unique(nodes: Seq<IMTNode>, k: Seq<u8>, i: int, j: int)
    requires
        keys_unique(nodes),
        list_ok(nodes),
        0 <= i < nodes.len(),
        0 <= j < nodes.len(),
        spec_is_ln_of(nodes[i], k),
        spec_is_ln_of(nodes[j], k),
        k.len() == 32,
    ensures
        i == j,
{
    if i != j {
        lemma_lex_trichotomy(nodes[i].key@, nodes[j].key@);
        lemma_ln_not_below(nodes, k, i, j);
        lemma_ln_not_below(nodes, k, j, i);
    }
}

/// Two low nullifiers of one key cannot be strictly ordered: the lower one's
/// successor span would have to cover both the key and the higher node.
proof fn lemma_ln_not_below(nodes: Seq<IMTNode>, k: Seq<u8>, i: int, j: int)
    requires
        keys_unique(nodes),
        list_ok(nodes),
        0 <= i < nodes.len(),
        0 <= j < nodes.len(),
        spec_is_ln_of(nodes[i], k),
        spec_is_ln_of(nodes[j], k),
        k.len() == 32,
    ensures
        !lex_lt(nodes[i].key@, nodes[j].key@),
{
    let a = nodes[i];
    let b = nodes[j];
    assert(node_link_ok(nodes, a));
    if lex_lt(a.key@, b.key@) {
        if a.next_key@ == zero_key() {
            assert(!lex_lt(a.key@, nodes[j].key@));
        } else {
            assert(!(lex_lt(a.key@, nodes[j].key@) && lex_lt(nodes[j].key@, a.next_key@)));
            lemma_lex_trichotomy(b.key@, a.next_key@);
            if b.key@ == a.next_key@ {
                lemma_lex_trichotomy(k, b.key@);
            } else {
                lemma_lex_transitive(k, a.next_key@, b.key@);
                lemma_lex_trichotomy(k, b.key@);
            }
        }
    }
}

/// Among the first `hi` nodes, some node's key is below `k`; returns the
/// slot of the greatest such key.
proof fn lemma_max_below(nodes: Seq<IMTNode>, k: Seq<u8>, hi: int) -> (m: int)
    requires
        0 < hi <= nodes.len(),
        exists|i: int| 0 <= i < hi && lex_lt((#[trigger] nodes[i].key)@, k),
        k.len() == 32,
    ensures
        0 <= m < hi,
        lex_lt(nodes[m].key@, k),
        forall|j: int|
            0 <= j < hi && lex_lt((#[trigger] nodes[j].key)@, k) ==> !lex_lt(
                nodes[m].key@,
                nodes[j].key@,
            ),
    decreases hi,
{
    let last = hi - 1;
    if hi == 1 {
        lemma_lex_irrefl(nodes[0].key@);
        0
    } else if lex_lt(nodes[last].key@, k) {
        if exists|i: int| 0 <= i < hi - 1 && lex_lt((#[trigger] nodes[i].key)@, k) {
            let m0 = lemma_max_below(nodes, k, hi - 1);
            lemma_lex_trichotomy(nodes[m0].key@, nodes[last].key@);
            if lex_lt(nodes[m0].key@, nodes[last].key@) {
                lemma_lex_irrefl(nodes[last].key@);
                assert forall|j: int|
                    0 <= j < hi && lex_lt((#[trigger] nodes[j].key)@, k) implies !lex_lt(
                    nodes[last].key@,
                    nodes[j].key@,
                ) by {
                    if j < hi - 1 && lex_lt(nodes[last].key@, nodes[j].key@) {
                        lemma_lex_transitive(nodes[m0].key@, nodes[last].key@, nodes[j].key@);
                    }
                    if j == last {
                        lemma_lex_irrefl(nodes[last].key@);
                    }
                }
                last
            } else {
                m0
            }
        } else {
            lemma_lex_irrefl(nodes[last].key@);
            last
        }
    } else {
        let wi = choose|i: int| 0 <= i < hi && lex_lt((#[trigger] nodes[i].key)@, k);
        assert(0 <= wi < hi - 1);
        lemma_max_below(nodes, k, hi - 1)
    }
}

/// For a 32-byte key not in a well-formed list, a low nullifier exists.
pub proof fn lemma_ln_exists(nodes: Seq<IMTNode>, k: Seq<u8>)
    requires
        keys_unique(nodes),
        list_ok(nodes),
        !contains_key(nodes, k),
        k.len() == 32,
    ensures
        exists|i: int| 0 <= i < nodes.len() && spec_is_ln_of(#[trigger] nodes[i], k),
{
    assert(nodes[0].key@ == zero_key());
    assert(contains_key(nodes, nodes[0].key@));
    assert(!(k =~= zero_key()));
    lemma_zero_key_least(k);
    assert(lex_lt((nodes[0].key)@, k));
    let m = lemma_max_below(nodes, k, nodes.len() as int);
    let a = nodes[m];
    assert(node_link_ok(nodes, a));
    if a.next_key@ == zero_key() {
        assert(spec_is_ln_of(nodes[m], k));
    } else {
        lemma_lex_trichotomy(k, a.next_key@);
        if a.next_key@ == k {
            assert(contains_key(nodes, k));
            assert(false);
        } else if lex_lt(a.next_key@, k) {
            let j = choose|j: int| 0 <= j < nodes.len() && (#[trigger] nodes[j].key)@
                == a.next_key@;
            assert(lex_lt(nodes[j].key@, k));
            assert(!lex_lt(nodes[m].key@, nodes[j].key@));
            assert(false);
        } else {
            assert(spec_is_ln_of(nodes[m], k));
        }
    }
}

/// A change to the single leaf `idx` leaves every subtree off the leaf's
/// path unchanged.
pub proof fn lemma_off_path_frame<H: Hashor>(nodes1: Seq<IMTNode>, nodes2: Seq<IMTNode>, idx: nat)
    requires
        forall|j: int| j != idx ==> #[trigger] leaf_same(nodes1, nodes2, j),
    ensures
        forall|l: nat, p: nat|
            p != level_pos(idx, l) ==> subtree_hash::<H>(nodes1, l, p) == #[trigger] subtree_hash::<
                H,
            >(nodes2, l, p),
{
    assert forall|l: nat, p: nat| p != level_pos(idx, l) implies subtree_hash::<H>(nodes1, l, p)
        == #[trigger] subtree_hash::<H>(nodes2, l, p) by {
        lemma_pow2_pos(l);
        assert((p + 1) * pow2(l) == p * pow2(l) + pow2(l)) by (nonlinear_arith);
        assert forall|j: int| p * pow2(l) <= j < (p + 1) * pow2(l) implies #[trigger] leaf_same(
            nodes1,
            nodes2,
            j,
        ) by {
            if j == idx {
                vstd::arithmetic::div_mod::lemma_fundamental_div_mod_converse(
                    j,
                    pow2(l) as int,
                    p as int,
                    j - p * pow2(l),
                );
                assert(level_pos(idx, l) == p);
                assert(false);
            }
        }
        lemma_subtree_frame::<H>(nodes1, nodes2, l, p);
    }
}

/// The node list after inserting `(key, value)` into `nodes`: the low
/// nullifier now links to the new key, and the new node takes slot
/// `old_size`, linking onward to the low nullifier's old successor.
pub open spec fn spec_insert_nodes(
    nodes: Seq<IMTNode>,
    key: crate::Key,
    value: crate::Value,
    old_size: u64,
) -> Seq<IMTNode> {
    let ln_i = spec_ln_index(nodes, key@);
    let ln = nodes[ln_i];
    nodes.update(ln_i, IMTNode { next_key: key, ..ln }).push(
        IMTNode { index: old_size, key, value, next_key: ln.next_key },
    )
}

/// Inserting through the low nullifier preserves the sorted linked list and
/// the uniqueness of keys.
pub proof fn lemma_insert_list_ok(
    nodes: Seq<IMTNode>,
    key: crate::Key,
    value: crate::Value,
    old_size: u64,
)
    requires
        keys_unique(nodes),
        list_ok(nodes),
        !contains_key(nodes, key@),
        nodes.len() == old_size as nat,
    ensures
        keys_unique(spec_insert_nodes(nodes, key, value, old_size)),
        list_ok(spec_insert_nodes(nodes, key, value, old_size)),
{
    lemma_ln_exists(nodes, key@);
    let ln_i = spec_ln_index(nodes, key@);
    assert(0 <= ln_i < nodes.len() && spec_is_ln_of(nodes[ln_i], key@));
    let ln = nodes[ln_i];
    let upd_ln = IMTNode { next_key: key, ..ln };
    let newn = IMTNode { index: old_size, key, value, next_key: ln.next_key };
    let n2 = spec_insert_nodes(nodes, key, value, old_size);
    let len = nodes.len() as int;
    assert(n2.len() == len + 1);
    assert(n2[len] == newn);
    assert(n2[ln_i] == upd_ln);
    assert(forall|j: int| 0 <= j < len && j != ln_i ==> n2[j] == nodes[j]);
    assert(forall|j: int| 0 <= j < len ==> (#[trigger] n2[j].key)@ == nodes[j].key@);
    assert(key@ != zero_key()) by {
        assert(contains_key(nodes, nodes[0].key@));
    }

    // keys stay unique: the old keys were, and the new key was absent
    assert forall|i: int, j: int|
        0 <= i < n2.len() && 0 <= j < n2.len() && i != j implies (#[trigger] n2[i].key)@ != (
    #[trigger] n2[j].key)@ by {
        if i == len || j == len {
            let o = if i == len {
                j
            } else {
                i
            };
            if 0 <= o < len {
                assert(nodes[o].key@ != key@);
            }
        }
    }

    // every node's link survives, and the two rewritten links hold
    assert forall|i: int| 0 <= i < n2.len() implies node_link_ok(n2, #[trigger] n2[i]) by {
        if i == ln_i {
            // the low nullifier now points at the inserted key
            assert(lex_lt(upd_ln.key@, key@));
            assert(contains_key(n2, key@)) by {
                assert(n2[len].key@ == key@);
            }
            assert forall|j: int| 0 <= j < n2.len() implies !(lex_lt(
                upd_ln.key@,
                (#[trigger] n2[j].key)@,
            ) && lex_lt(n2[j].key@, key@)) by {
                if j < len && lex_lt(upd_ln.key@, n2[j].key@) && lex_lt(n2[j].key@, key@) {
                    assert(node_link_ok(nodes, ln));
                    if ln.next_key@ == zero_key() {
                        assert(!lex_lt(ln.key@, nodes[j].key@));
                    } else {
                        lemma_lex_transitive(nodes[j].key@, key@, ln.next_key@);
                        assert(!(lex_lt(ln.key@, nodes[j].key@) && lex_lt(
                            nodes[j].key@,
                            ln.next_key@,
                        )));
                    }
                }
                if j == len {
                    lemma_lex_irrefl(key@);
                }
            }
        } else if i == len {
            // the inserted node takes over the low nullifier's old successor
            assert(node_link_ok(nodes, ln));
            if newn.next_key@ == zero_key() {
                assert forall|j: int| 0 <= j < n2.len() implies !lex_lt(
                    newn.key@,
                    (#[trigger] n2[j].key)@,
                ) by {
                    if j < len {
                        if lex_lt(key@, nodes[j].key@) {
                            lemma_lex_transitive(ln.key@, key@, nodes[j].key@);
                            assert(!lex_lt(ln.key@, nodes[j].key@));
                        }
                    } else {
                        lemma_lex_irrefl(key@);
                    }
                }
            } else {
                assert(lex_lt(key@, ln.next_key@));
                assert(contains_key(n2, newn.next_key@)) by {
                    let w = choose|w: int| 0 <= w < nodes.len() && (#[trigger] nodes[w].key)@
                        == ln.next_key@;
                    assert(n2[w].key@ == ln.next_key@);
                }
                assert forall|j: int| 0 <= j < n2.len() implies !(lex_lt(
                    newn.key@,
                    (#[trigger] n2[j].key)@,
                ) && lex_lt(n2[j].key@, newn.next_key@)) by {
                    if j < len && lex_lt(key@, n2[j].key@) && lex_lt(n2[j].key@, ln.next_key@) {
                        lemma_lex_transitive(ln.key@, key@, nodes[j].key@);
                        assert(!(lex_lt(ln.key@, nodes[j].key@) && lex_lt(
                            nodes[j].key@,
                            ln.next_key@,
                        )));
                    }
                    if j == len {
                        lemma_lex_irrefl(key@);
                    }
                }
            }
        } else {
            // an untouched node: nothing new lands inside its span
            let a = nodes[i];
            assert(node_link_ok(nodes, a));
            assert(n2[i] == a);
            if a.next_key@ == zero_key() {
                assert forall|j: int| 0 <= j < n2.len() implies !lex_lt(
                    a.key@,
                    (#[trigger] n2[j].key)@,
                ) by {
                    if j == len {
                        // a is not the low nullifier, so the maximum is not a:
                        // the low nullifier's span covers keys above a.key
                        if lex_lt(a.key@, key@) {
                            assert(spec_is_ln_of(nodes[i], key@));
                            lemma_ln_unique(nodes, key@, i, ln_i);
                            assert(false);
                        }
                    }
                }
            } else {
                assert(contains_key(n2, a.next_key@)) by {
                    let w = choose|w: int| 0 <= w < nodes.len() && (#[trigger] nodes[w].key)@
                        == a.next_key@;
                    assert(n2[w].key@ == a.next_key@);
                }
                assert forall|j: int| 0 <= j < n2.len() implies !(lex_lt(
                    a.key@,
                    (#[trigger] n2[j].key)@,
                ) && lex_lt(n2[j].key@, a.next_key@)) by {
                    if j == len && lex_lt(a.key@, key@) && lex_lt(key@, a.next_key@) {
                        assert(spec_is_ln_of(nodes[i], key@));
                        lemma_ln_unique(nodes, key@, i, ln_i);
                        assert(false);
                    }
                }
            }
        }
    }
    assert(n2[0].key@ == zero_key());
}

} // verus!
