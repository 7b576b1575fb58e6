//! Lexicographic order on 32-byte keys, and the reserved all-zero key.

use vstd::prelude::*;

use crate::Key;

verus! {

/// The reserved sentinel key: all zero bytes. It anchors the linked list and
/// marks its end in `next_key`.
pub open spec fn zero_key() -> Seq<u8> {
    Seq::new(32, |i: int| 0u8)
}

/// Strict lexicographic order on byte strings: the first differing byte decides.
pub open spec fn lex_lt(a: Seq<u8>, b: Seq<u8>) -> bool
    decreases a.len(),
{
    if a.len() == 0 || b.len() == 0 {
        false
    } else if a[0] < b[0] {
        true
    } else if a[0] > b[0] {
        false
    } else {
        lex_lt(a.skip(1), b.skip(1))
    }
}

/// Two equal-length byte strings with equal heads are equal exactly when
/// their tails are.
proof fn lemma_eq_unfold(a: Seq<u8>, b: Seq<u8>)
    requires
        a.len() == b.len(),
        a.len() > 0,
        a[0] == b[0],
    ensures
        (a =~= b) <==> (a.skip(1) =~= b.skip(1)),
{
    if a.skip(1) =~= b.skip(1) {
        assert forall|i: int| 0 <= i < a.len() implies a[i] == b[i] by {
            if i >= 1 {
                assert(a[i] == a.skip(1)[i - 1]);
                assert(b[i] == b.skip(1)[i - 1]);
            }
        }
        assert(a =~= b);
    }
    if a =~= b {
        assert forall|i: int| 0 <= i < a.skip(1).len() implies a.skip(1)[i] == b.skip(1)[i] by {
            assert(a.skip(1)[i] == a[i + 1]);
            assert(b.skip(1)[i] == b[i + 1]);
        }
        assert(a.skip(1) =~= b.skip(1));
    }
}

/// Exactly one of `a < b`, `a == b`, `b < a` holds for equal-length byte strings.
pub proof fn lemma_lex_trichotomy(a: Seq<u8>, b: Seq<u8>)
    requires
        a.len() == b.len(),
    ensures
        lex_lt(a, b) || lex_lt(b, a) || a =~= b,
        lex_lt(a, b) ==> !lex_lt(b, a) && !(a =~= b),
        lex_lt(b, a) ==> !lex_lt(a, b) && !(a =~= b),
    decreases a.len(),
{
    if a.len() > 0 {
        if a[0] == b[0] {
            lemma_lex_trichotomy(a.skip(1), b.skip(1));
            lemma_eq_unfold(a, b);
        } else {
            assert(!(a =~= b));
        }
    }
}

/// Lexicographic order is transitive.
pub proof fn lemma_lex_transitive(a: Seq<u8>, b: Seq<u8>, c: Seq<u8>)
    requires
        a.len() == b.len(),
        b.len() == c.len(),
        lex_lt(a, b),
        lex_lt(b, c),
    ensures
        lex_lt(a, c),
    decreases a.len(),
{
    if a[0] == b[0] && b[0] == c[0] {
        lemma_lex_transitive(a.skip(1), b.skip(1), c.skip(1));
    }
}

/// The zero key is the least key: any other 32-byte key is strictly above it.
pub proof fn lemma_zero_key_least(a: Seq<u8>)
    requires
        a.len() == 32,
        !(a =~= zero_key()),
    ensures
        lex_lt(zero_key(), a),
{
    lemma_zero_prefix_least(a, zero_key());
}

proof fn lemma_zero_prefix_least(a: Seq<u8>, z: Seq<u8>)
    requires
        a.len() == z.len(),
        forall|i: int| 0 <= i < z.len() ==> z[i] == 0u8,
        !(a =~= z),
    ensures
        lex_lt(z, a),
    decreases a.len(),
{
    if a.len() > 0 {
        if a[0] == 0u8 {
            lemma_eq_unfold(a, z);
            lemma_zero_prefix_least(a.skip(1), z.skip(1));
        }
    }
}

/// Compares two keys; returns true iff `a` is strictly below `b` in
/// lexicographic order.
pub fn key_lt(a: &Key, b: &Key) -> (r: bool)
    ensures
        r == lex_lt(a@, b@),
{
    let mut i: usize = 0;
    proof {
        assert(a@.skip(0) =~= a@);
        assert(b@.skip(0) =~= b@);
    }
    while i < 32
        invariant
            0 <= i <= 32,
            forall|j: int| 0 <= j < i ==> a@[j] == b@[j],
            lex_lt(a@, b@) == lex_lt(a@.skip(i as int), b@.skip(i as int)),
        decreases 32 - i,
    {
        if a[i] < b[i] {
            proof {
                assert(lex_lt(a@.skip(i as int), b@.skip(i as int)));
            }
            return true;
        }
        if a[i] > b[i] {
            proof {
                assert(!lex_lt(a@.skip(i as int), b@.skip(i as int)));
            }
            return false;
        }
        proof {
            assert(a@.skip(i as int).skip(1) =~= a@.skip(i + 1));
            assert(b@.skip(i as int).skip(1) =~= b@.skip(i + 1));
        }
        i = i + 1;
    }
    proof {
        assert(!lex_lt(a@.skip(32), b@.skip(32)));
    }
    false
}

/// Returns true iff two 32-byte strings hold the same bytes.
pub fn bytes32_eq(a: &[u8; 32], b: &[u8; 32]) -> (r: bool)
    ensures
        r == (a@ =~= b@),
{
    let mut i: usize = 0;
    while i < 32
        invariant
            0 <= i <= 32,
            forall|j: int| 0 <= j < i ==> a@[j] == b@[j],
        decreases 32 - i,
    {
        if a[i] != b[i] {
            return false;
        }
        i = i + 1;
    }
    proof {
        assert(a@ =~= b@);
    }
    true
}

/// Returns true iff the key is the reserved zero key.
pub fn key_is_zero(a: &Key) -> (r: bool)
    ensures
        r == (a@ =~= zero_key()),
{
    let mut i: usize = 0;
    while i < 32
        invariant
            0 <= i <= 32,
            forall|j: int| 0 <= j < i ==> a@[j] == 0u8,
        decreases 32 - i,
    {
        if a[i] != 0u8 {
            return false;
        }
        i = i + 1;
    }
    proof {
        assert(a@ =~= zero_key());
    }
    true
}

} // verus!
