//! Byte-lexicographic order on byte strings.
//!
//! Keys in the tree are arbitrary byte strings compared lexicographically.
//! `lex_lt` is the mathematical order; `compare_bytes` is the executable
//! three-way comparison proved against it.

use vstd::prelude::*;

verus! {

/// Strict lexicographic order on byte sequences: `a` comes before `b`.
pub open spec fn lex_lt(a: Seq<u8>, b: Seq<u8>) -> bool
    decreases a.len(),
{
    if b.len() == 0 {
        false
    } else if a.len() == 0 {
        true
    } else if a[0] < b[0] {
        true
    } else if a[0] > b[0] {
        false
    } else {
        lex_lt(a.skip(1), b.skip(1))
    }
}

/// Non-strict lexicographic order.
pub open spec fn lex_le(a: Seq<u8>, b: Seq<u8>) -> bool {
    lex_lt(a, b) || a == b
}

/// Exactly one of `a < b`, `a == b`, `b < a` holds.
pub proof fn lemma_lex_trichotomy(a: Seq<u8>, b: Seq<u8>)
    ensures
        lex_lt(a, b) || a == b || lex_lt(b, a),
        lex_lt(a, b) ==> a != b && !lex_lt(b, a),
        a == b ==> !lex_lt(a, b) && !lex_lt(b, a),
    decreases a.len(),
{
    if a.len() == 0 && b.len() == 0 {
        assert(a =~= b);
    } else if a.len() == 0 || b.len() == 0 {
    } else if a[0] == b[0] {
        lemma_lex_trichotomy(a.skip(1), b.skip(1));
        if a.skip(1) == b.skip(1) {
            assert(a =~= b) by {
                assert(forall|i: int|
                    1 <= i < a.len() ==> a[i] == a.skip(1)[i - 1] && b[i] == b.skip(1)[i - 1]);
            }
        }
        if a == b {
            assert(a.skip(1) =~= b.skip(1));
        }
    } else {
        if a == b {
            assert(a[0] == b[0]);
        }
    }
}

/// Lexicographic order is transitive.
pub proof fn lemma_lex_lt_trans(a: Seq<u8>, b: Seq<u8>, c: Seq<u8>)
    requires
        lex_lt(a, b),
        lex_lt(b, c),
    ensures
        lex_lt(a, c),
    decreases a.len(),
{
    if a.len() == 0 {
        assert(b.len() > 0);
    } else {
        assert(b.len() > 0 && c.len() > 0);
        if a[0] == b[0] && b[0] == c[0] {
            lemma_lex_lt_trans(a.skip(1), b.skip(1), c.skip(1));
        }
    }
}

/// Non-strict order is transitive, and composes with the strict order.
pub proof fn lemma_lex_le_trans(a: Seq<u8>, b: Seq<u8>, c: Seq<u8>)
    requires
        lex_le(a, b),
        lex_le(b, c),
    ensures
        lex_le(a, c),
{
    if a != b && b != c {
        lemma_lex_lt_trans(a, b, c);
    }
}

/// A value below a non-strict bound is below anything above that bound.
pub proof fn lemma_lex_lt_le_trans(a: Seq<u8>, b: Seq<u8>, c: Seq<u8>)
    requires
        lex_lt(a, b),
        lex_le(b, c),
    ensures
        lex_lt(a, c),
{
    if b != c {
        lemma_lex_lt_trans(a, b, c);
    }
}

/// A value at or above a bound is above anything below that bound.
pub proof fn lemma_lex_le_lt_trans(a: Seq<u8>, b: Seq<u8>, c: Seq<u8>)
    requires
        lex_le(a, b),
        lex_lt(b, c),
    ensures
        lex_lt(a, c),
{
    if a != b {
        lemma_lex_lt_trans(a, b, c);
    }
}

/// Three-way comparison result for byte strings.
#[derive(PartialEq, Eq, Structural, Clone, Copy, Debug)]
pub enum KeyOrdering {
    Less,
    Equal,
    Greater,
}

/// If two sequences agree on their first `i` elements, ordering is decided by
/// the remainders.
proof fn lemma_lex_skip(a: Seq<u8>, b: Seq<u8>, i: int)
    requires
        0 <= i <= a.len(),
        i <= b.len(),
        forall|j: int| 0 <= j < i ==> a[j] == b[j],
    ensures
        lex_lt(a, b) == lex_lt(a.skip(i), b.skip(i)),
    decreases i,
{
    if i == 0 {
        assert(a.skip(0) =~= a);
        assert(b.skip(0) =~= b);
    } else {
        assert(a.len() > 0 && b.len() > 0 && a[0] == b[0]);
        lemma_lex_skip(a.skip(1), b.skip(1), i - 1);
        assert(a.skip(1).skip(i - 1) =~= a.skip(i));
        assert(b.skip(1).skip(i - 1) =~= b.skip(i));
    }
}

/// Executable three-way lexicographic comparison of two byte strings.
pub fn compare_bytes(a: &[u8], b: &[u8]) -> (r: KeyOrdering)
    ensures
        r == KeyOrdering::Less <==> lex_lt(a@, b@),
        r == KeyOrdering::Equal <==> a@ == b@,
        r == KeyOrdering::Greater <==> lex_lt(b@, a@),
{
    proof {
        lemma_lex_trichotomy(a@, b@);
    }
    let a_len: usize = a.len();
    let b_len: usize = b.len();
    let mut i: usize = 0;
    let min_len: usize = if a_len < b_len {
        a_len
    } else {
        b_len
    };
    while i < min_len
        invariant
            0 <= i <= min_len,
            min_len <= a@.len(),
            min_len <= b@.len(),
            a_len == a@.len(),
            b_len == b@.len(),
            min_len == if a_len < b_len {
                a_len
            } else {
                b_len
            },
            forall|j: int| 0 <= j < i ==> a@[j] == b@[j],
        decreases min_len - i,
    {
        let x = a[i];
        let y = b[i];
        if x < y {
            proof {
                lemma_lex_skip(a@, b@, i as int);
                lemma_lex_trichotomy(a@, b@);
            }
            return KeyOrdering::Less;
        }
        if x > y {
            proof {
                lemma_lex_skip(a@, b@, i as int);
                lemma_lex_trichotomy(a@, b@);
            }
            return KeyOrdering::Greater;
        }
        i = i + 1;
    }
    proof {
        lemma_lex_skip(a@, b@, min_len as int);
        lemma_lex_trichotomy(a@, b@);
        if a_len == b_len {
            assert(a@ =~= b@);
        } else if a_len < b_len {
            assert(a@.skip(min_len as int).len() == 0);
            assert(b@.skip(min_len as int).len() > 0);
        } else {
            assert(b@.skip(min_len as int).len() == 0);
            assert(a@.skip(min_len as int).len() > 0);
        }
    }
    if a_len == b_len {
        KeyOrdering::Equal
    } else if a_len < b_len {
        KeyOrdering::Less
    } else {
        KeyOrdering::Greater
    }
}

} // verus!
