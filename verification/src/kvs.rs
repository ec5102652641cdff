//! The mathematical model of the tree's content: a list of key-value pairs
//! sorted strictly by key, with lookup, last-write-wins insert and remove,
//! and the lemmas that localize those operations inside a concatenation.

use vstd::prelude::*;

use crate::order::lemma_lex_trichotomy;
use crate::order::lex_lt;

verus! {

/// A list of key-value pairs of byte strings.
pub type KvList = Seq<(Seq<u8>, Seq<u8>)>;

/// Keys strictly increase along the list.
pub open spec fn kvs_sorted(s: KvList) -> bool {
    forall|i: int, j: int| 0 <= i < j < s.len() ==> lex_lt(s[i].0, s[j].0)
}

/// Value stored under `k`, scanning left to right.
pub open spec fn kvs_find(s: KvList, k: Seq<u8>) -> Option<Seq<u8>>
    decreases s.len(),
{
    if s.len() == 0 {
        None
    } else if s[0].0 == k {
        Some(s[0].1)
    } else {
        kvs_find(s.skip(1), k)
    }
}

/// The list holds a pair with key `k`.
pub open spec fn kvs_contains_key(s: KvList, k: Seq<u8>) -> bool {
    kvs_find(s, k) is Some
}

/// The list with `(k, v)` written: an existing pair under `k` is replaced,
/// otherwise the pair enters at its sorted position.
pub open spec fn kvs_insert(s: KvList, k: Seq<u8>, v: Seq<u8>) -> KvList
    decreases s.len(),
{
    if s.len() == 0 {
        seq![(k, v)]
    } else if lex_lt(k, s[0].0) {
        seq![(k, v)] + s
    } else if k == s[0].0 {
        seq![(k, v)] + s.skip(1)
    } else {
        seq![s[0]] + kvs_insert(s.skip(1), k, v)
    }
}

/// The list with the pair under `k` removed, if one is there.
pub open spec fn kvs_remove(s: KvList, k: Seq<u8>) -> KvList
    decreases s.len(),
{
    if s.len() == 0 {
        s
    } else if s[0].0 == k {
        s.skip(1)
    } else {
        seq![s[0]] + kvs_remove(s.skip(1), k)
    }
}

/// A list without `k` among its keys is not changed by removing `k`, and a
/// find of `k` in it fails.
pub proof fn lemma_kvs_absent(s: KvList, k: Seq<u8>)
    requires
        forall|i: int| 0 <= i < s.len() ==> (#[trigger] s[i]).0 != k,
    ensures
        kvs_find(s, k) is None,
        kvs_remove(s, k) == s,
    decreases s.len(),
{
    if s.len() > 0 {
        lemma_kvs_absent(s.skip(1), k);
        assert(seq![s[0]] + s.skip(1) =~= s);
    }
}

/// Inserting and then searching the same key finds the new value; searching
/// any other key finds what it found before.
pub proof fn lemma_kvs_insert_find(s: KvList, k: Seq<u8>, v: Seq<u8>, q: Seq<u8>)
    ensures
        kvs_find(kvs_insert(s, k, v), q) == if q == k {
            Some(v)
        } else {
            kvs_find(s, q)
        },
    decreases s.len(),
{
    lemma_lex_trichotomy(k, q);
    if s.len() == 0 {
        if q != k {
            assert(kvs_find(seq![(k, v)].skip(1), q) is None);
        }
    } else if lex_lt(k, s[0].0) {
        assert(kvs_insert(s, k, v) == seq![(k, v)] + s);
        if q != k {
            assert((seq![(k, v)] + s).skip(1) =~= s);
        }
    } else if k == s[0].0 {
        if q != k {
            assert((seq![(k, v)] + s.skip(1)).skip(1) =~= s.skip(1));
        }
    } else {
        lemma_lex_trichotomy(k, s[0].0);
        lemma_kvs_insert_find(s.skip(1), k, v, q);
        assert((seq![s[0]] + kvs_insert(s.skip(1), k, v)).skip(1) =~= kvs_insert(s.skip(1), k, v));
        if q == s[0].0 {
            assert(q != k);
        }
    }
}

/// Removing a key then searching it fails; searching any other key finds
/// what it found before.
pub proof fn lemma_kvs_remove_find(s: KvList, k: Seq<u8>, q: Seq<u8>)
    requires
        kvs_sorted(s),
    ensures
        kvs_find(kvs_remove(s, k), q) == if q == k {
            None::<Seq<u8>>
        } else {
            kvs_find(s, q)
        },
    decreases s.len(),
{
    if s.len() == 0 {
    } else if s[0].0 == k {
        if q == k {
            // every later key is strictly greater than k, so the search fails
            assert forall|i: int| 0 <= i < s.skip(1).len() implies (#[trigger] s.skip(1)[i]).0
                != k by {
                assert(s.skip(1)[i] == s[i + 1]);
                assert(lex_lt(s[0].0, s[i + 1].0));
                lemma_lex_trichotomy(s[0].0, s[i + 1].0);
            }
            lemma_kvs_absent(s.skip(1), k);
        }
    } else {
        assert(kvs_sorted(s.skip(1))) by {
            assert(forall|i: int, j: int|
                0 <= i < j < s.skip(1).len() ==> s.skip(1)[i] == s[i + 1] && s.skip(1)[j] == s[j
                    + 1]);
        }
        lemma_kvs_remove_find(s.skip(1), k, q);
        assert((seq![s[0]] + kvs_remove(s.skip(1), k)).skip(1) =~= kvs_remove(s.skip(1), k));
    }
}

/// Inserting into a sorted list keeps it sorted, leaves every key at least
/// as small as the smaller of `k` and the old first key, and grows it by one
/// exactly when `k` was absent.
pub proof fn lemma_kvs_insert_sorted(s: KvList, k: Seq<u8>, v: Seq<u8>)
    requires
        kvs_sorted(s),
    ensures
        kvs_sorted(kvs_insert(s, k, v)),
        kvs_insert(s, k, v).len() == if kvs_contains_key(s, k) {
            s.len()
        } else {
            s.len() + 1
        },
        forall|i: int|
            0 <= i < kvs_insert(s, k, v).len() ==> (#[trigger] kvs_insert(s, k, v)[i]).0 == k
                || kvs_contains_key(s, kvs_insert(s, k, v)[i].0),
    decreases s.len(),
{
    let r = kvs_insert(s, k, v);
    if s.len() == 0 {
    } else if lex_lt(k, s[0].0) {
        assert forall|i: int, j: int| 0 <= i < j < r.len() implies lex_lt(r[i].0, r[j].0) by {
            if i == 0 {
                if j > 1 {
                    crate::order::lemma_lex_lt_trans(k, s[0].0, s[j - 1].0);
                }
            }
        }
        assert forall|i: int| 0 <= i < s.len() implies (#[trigger] s[i]).0 != k by {
            if i == 0 {
                lemma_lex_trichotomy(k, s[0].0);
            } else {
                crate::order::lemma_lex_lt_trans(k, s[0].0, s[i].0);
                lemma_lex_trichotomy(k, s[i].0);
            }
        }
        lemma_kvs_absent(s, k);
        assert forall|i: int| 0 <= i < r.len() implies (#[trigger] r[i]).0 == k
            || kvs_contains_key(s, r[i].0) by {
            if i > 0 {
                lemma_kvs_find_member(s, i - 1);
            }
        }
    } else if k == s[0].0 {
        assert forall|i: int, j: int| 0 <= i < j < r.len() implies lex_lt(r[i].0, r[j].0) by {
            assert(r[i] == if i == 0 {
                (k, v)
            } else {
                s[i]
            });
            assert(r[j] == s[j]);
            assert(lex_lt(s[i].0, s[j].0));
        }
        assert forall|i: int| 0 <= i < r.len() implies (#[trigger] r[i]).0 == k
            || kvs_contains_key(s, r[i].0) by {
            if i > 0 {
                lemma_kvs_find_member(s, i);
            }
        }
    } else {
        lemma_lex_trichotomy(k, s[0].0);
        assert(kvs_sorted(s.skip(1))) by {
            assert(forall|i: int, j: int|
                0 <= i < j < s.skip(1).len() ==> s.skip(1)[i] == s[i + 1] && s.skip(1)[j] == s[j
                    + 1]);
        }
        lemma_kvs_insert_sorted(s.skip(1), k, v);
        let r1 = kvs_insert(s.skip(1), k, v);
        assert(r =~= seq![s[0]] + r1);
        assert forall|i: int, j: int| 0 <= i < j < r.len() implies lex_lt(r[i].0, r[j].0) by {
            if i == 0 {
                assert(r[j] == r1[j - 1]);
                if r1[j - 1].0 == k {
                } else {
                    assert(kvs_contains_key(s.skip(1), r1[j - 1].0));
                    lemma_kvs_find_index(s.skip(1), r1[j - 1].0);
                    assert(s.skip(1)[0] == s[1]);
                    assert(lex_lt(s[0].0, s[1].0));
                    if r1[j - 1].0 == s[1].0 {
                    } else {
                        crate::order::lemma_lex_lt_trans(s[0].0, s[1].0, r1[j - 1].0);
                    }
                }
            } else {
                assert(r[i] == r1[i - 1] && r[j] == r1[j - 1]);
            }
        }
        assert(kvs_find(s, k) == kvs_find(s.skip(1), k));
        assert forall|i: int| 0 <= i < r.len() implies (#[trigger] r[i]).0 == k
            || kvs_contains_key(s, r[i].0) by {
            if i == 0 {
                lemma_kvs_find_member(s, 0);
            } else {
                if r1[i - 1].0 != k {
                    assert(kvs_contains_key(s.skip(1), r1[i - 1].0));
                    lemma_kvs_find_skip_contains(s, r1[i - 1].0);
                }
            }
        }
    }
}

/// An insert leaves the list nonempty, beginning with the smaller of the
/// written key and the old first key.
pub proof fn lemma_kvs_insert_first(s: KvList, k: Seq<u8>, v: Seq<u8>)
    ensures
        kvs_insert(s, k, v).len() >= 1,
        kvs_insert(s, k, v)[0].0 == if s.len() > 0 && lex_lt(s[0].0, k) {
            s[0].0
        } else {
            k
        },
{
    if s.len() == 0 {
        assert(kvs_insert(s, k, v)[0] == (k, v));
    } else if lex_lt(k, s[0].0) {
        lemma_lex_trichotomy(k, s[0].0);
        assert((seq![(k, v)] + s)[0] == (k, v));
    } else if k == s[0].0 {
        lemma_lex_trichotomy(k, s[0].0);
        assert((seq![(k, v)] + s.skip(1))[0] == (k, v));
    } else {
        lemma_lex_trichotomy(k, s[0].0);
        assert((seq![s[0]] + kvs_insert(s.skip(1), k, v))[0] == s[0]);
    }
}

/// A key at any position of the list is found by `kvs_find`.
pub proof fn lemma_kvs_find_member(s: KvList, i: int)
    requires
        0 <= i < s.len(),
    ensures
        kvs_contains_key(s, s[i].0),
    decreases i,
{
    if s[0].0 != s[i].0 {
        lemma_kvs_find_member(s.skip(1), i - 1);
    }
}

/// A key found in the tail is found in the whole list.
proof fn lemma_kvs_find_skip_contains(s: KvList, k: Seq<u8>)
    requires
        s.len() > 0,
        kvs_contains_key(s.skip(1), k),
    ensures
        kvs_contains_key(s, k),
{
}

/// In a sorted list a found key sits at some position, so it is at least the
/// first key.
pub proof fn lemma_kvs_find_index(s: KvList, k: Seq<u8>)
    requires
        kvs_sorted(s),
        kvs_contains_key(s, k),
        s.len() > 0,
    ensures
        k == s[0].0 || lex_lt(s[0].0, k),
    decreases s.len(),
{
    if s[0].0 != k {
        if s.skip(1).len() == 0 {
            assert(kvs_find(s.skip(1), k) is None);
            assert(false);
        }
        assert(kvs_sorted(s.skip(1))) by {
            assert(forall|i: int, j: int|
                0 <= i < j < s.skip(1).len() ==> s.skip(1)[i] == s[i + 1] && s.skip(1)[j] == s[j
                    + 1]);
        }
        lemma_kvs_find_index(s.skip(1), k);
        assert(s.skip(1)[0] == s[1]);
        assert(lex_lt(s[0].0, s[1].0));
        if k == s[1].0 {
        } else {
            crate::order::lemma_lex_lt_trans(s[0].0, s[1].0, k);
        }
    }
}

/// Removing from a sorted list keeps it sorted, keeps every surviving key,
/// and shrinks it by one exactly when the key was present.
pub proof fn lemma_kvs_remove_sorted(s: KvList, k: Seq<u8>)
    requires
        kvs_sorted(s),
    ensures
        kvs_sorted(kvs_remove(s, k)),
        kvs_remove(s, k).len() == if kvs_contains_key(s, k) {
            s.len() - 1
        } else {
            s.len() as int
        },
        forall|i: int|
            0 <= i < kvs_remove(s, k).len() ==> kvs_contains_key(
                s,
                (#[trigger] kvs_remove(s, k)[i]).0,
            ),
    decreases s.len(),
{
    let r = kvs_remove(s, k);
    if s.len() == 0 {
    } else if s[0].0 == k {
        assert forall|i: int, j: int| 0 <= i < j < r.len() implies lex_lt(r[i].0, r[j].0) by {
            assert(r[i] == s[i + 1] && r[j] == s[j + 1]);
        }
        assert forall|i: int| 0 <= i < r.len() implies kvs_contains_key(s, (#[trigger] r[i]).0) by {
            assert(r[i] == s[i + 1]);
            lemma_kvs_find_member(s, i + 1);
        }
    } else {
        assert(kvs_sorted(s.skip(1))) by {
            assert(forall|i: int, j: int|
                0 <= i < j < s.skip(1).len() ==> s.skip(1)[i] == s[i + 1] && s.skip(1)[j] == s[j
                    + 1]);
        }
        lemma_kvs_remove_sorted(s.skip(1), k);
        let r1 = kvs_remove(s.skip(1), k);
        assert(r =~= seq![s[0]] + r1);
        assert forall|i: int, j: int| 0 <= i < j < r.len() implies lex_lt(r[i].0, r[j].0) by {
            if i == 0 {
                assert(r[j] == r1[j - 1]);
                assert(kvs_contains_key(s.skip(1), r1[j - 1].0));
                lemma_kvs_find_index(s.skip(1), r1[j - 1].0);
                assert(s.skip(1)[0] == s[1]);
                assert(lex_lt(s[0].0, s[1].0));
                if r1[j - 1].0 == s[1].0 {
                } else {
                    crate::order::lemma_lex_lt_trans(s[0].0, s[1].0, r1[j - 1].0);
                }
            } else {
                assert(r[i] == r1[i - 1] && r[j] == r1[j - 1]);
            }
        }
        assert forall|i: int| 0 <= i < r.len() implies kvs_contains_key(s, (#[trigger] r[i]).0) by {
            if i == 0 {
                lemma_kvs_find_member(s, 0);
            } else {
                assert(kvs_contains_key(s.skip(1), r1[i - 1].0));
                lemma_kvs_find_skip_contains(s, r1[i - 1].0);
            }
        }
    }
}

/// Searching a concatenation searches the left part first.
pub proof fn lemma_kvs_find_concat(a: KvList, b: KvList, k: Seq<u8>)
    ensures
        kvs_find(a + b, k) == if kvs_find(a, k) is Some {
            kvs_find(a, k)
        } else {
            kvs_find(b, k)
        },
    decreases a.len(),
{
    if a.len() == 0 {
        assert(a + b =~= b);
    } else {
        if (a + b)[0].0 == k {
        } else {
            lemma_kvs_find_concat(a.skip(1), b, k);
            assert((a + b).skip(1) =~= a.skip(1) + b);
        }
    }
}

/// An insert whose key exceeds every key of a prefix happens after that
/// prefix.
pub proof fn lemma_kvs_insert_prefix(a: KvList, rest: KvList, k: Seq<u8>, v: Seq<u8>)
    requires
        forall|i: int| 0 <= i < a.len() ==> lex_lt((#[trigger] a[i]).0, k),
    ensures
        kvs_insert(a + rest, k, v) == a + kvs_insert(rest, k, v),
    decreases a.len(),
{
    if a.len() == 0 {
        assert(a + rest =~= rest);
        assert(a + kvs_insert(rest, k, v) =~= kvs_insert(rest, k, v));
    } else {
        lemma_lex_trichotomy(k, a[0].0);
        assert((a + rest)[0] == a[0]);
        lemma_kvs_insert_prefix(a.skip(1), rest, k, v);
        assert((a + rest).skip(1) =~= a.skip(1) + rest);
        assert(seq![a[0]] + (a.skip(1) + kvs_insert(rest, k, v)) =~= a + kvs_insert(rest, k, v));
    }
}

/// An insert whose key is below every key of a suffix happens before that
/// suffix.
pub proof fn lemma_kvs_insert_concat(x: KvList, b: KvList, k: Seq<u8>, v: Seq<u8>)
    requires
        forall|i: int| 0 <= i < b.len() ==> lex_lt(k, (#[trigger] b[i]).0),
    ensures
        kvs_insert(x + b, k, v) == kvs_insert(x, k, v) + b,
    decreases x.len(),
{
    if x.len() == 0 {
        assert(x + b =~= b);
        if b.len() == 0 {
            assert(kvs_insert(x, k, v) + b =~= seq![(k, v)]);
        } else {
            assert(lex_lt(k, b[0].0));
            assert(kvs_insert(b, k, v) == seq![(k, v)] + b);
            assert(kvs_insert(x, k, v) + b =~= seq![(k, v)] + b);
        }
    } else {
        assert((x + b)[0] == x[0]);
        if lex_lt(k, x[0].0) {
            assert(kvs_insert(x + b, k, v) == seq![(k, v)] + (x + b));
            assert(seq![(k, v)] + (x + b) =~= (seq![(k, v)] + x) + b);
        } else if k == x[0].0 {
            assert((x + b).skip(1) =~= x.skip(1) + b);
            assert(seq![(k, v)] + (x.skip(1) + b) =~= (seq![(k, v)] + x.skip(1)) + b);
        } else {
            lemma_kvs_insert_concat(x.skip(1), b, k, v);
            assert((x + b).skip(1) =~= x.skip(1) + b);
            assert(seq![x[0]] + (kvs_insert(x.skip(1), k, v) + b) =~= (seq![x[0]] + kvs_insert(
                x.skip(1),
                k,
                v,
            )) + b);
        }
    }
}

/// A removal whose key exceeds every key of a prefix happens after that
/// prefix.
pub proof fn lemma_kvs_remove_prefix(a: KvList, rest: KvList, k: Seq<u8>)
    requires
        forall|i: int| 0 <= i < a.len() ==> lex_lt((#[trigger] a[i]).0, k),
    ensures
        kvs_remove(a + rest, k) == a + kvs_remove(rest, k),
    decreases a.len(),
{
    if a.len() == 0 {
        assert(a + rest =~= rest);
        assert(a + kvs_remove(rest, k) =~= kvs_remove(rest, k));
    } else {
        lemma_lex_trichotomy(k, a[0].0);
        assert((a + rest)[0] == a[0]);
        lemma_kvs_remove_prefix(a.skip(1), rest, k);
        assert((a + rest).skip(1) =~= a.skip(1) + rest);
        assert(seq![a[0]] + (a.skip(1) + kvs_remove(rest, k)) =~= a + kvs_remove(rest, k));
    }
}

/// A removal whose key is below every key of a suffix never reaches that
/// suffix.
pub proof fn lemma_kvs_remove_concat(x: KvList, b: KvList, k: Seq<u8>)
    requires
        forall|i: int| 0 <= i < b.len() ==> lex_lt(k, (#[trigger] b[i]).0),
    ensures
        kvs_remove(x + b, k) == kvs_remove(x, k) + b,
    decreases x.len(),
{
    if x.len() == 0 {
        assert(x + b =~= b);
        assert forall|i: int| 0 <= i < b.len() implies (#[trigger] b[i]).0 != k by {
            lemma_lex_trichotomy(k, b[i].0);
        }
        lemma_kvs_absent(b, k);
        assert(kvs_remove(x, k) + b =~= b);
    } else {
        assert((x + b)[0] == x[0]);
        if x[0].0 == k {
            assert((x + b).skip(1) =~= x.skip(1) + b);
        } else {
            lemma_kvs_remove_concat(x.skip(1), b, k);
            assert((x + b).skip(1) =~= x.skip(1) + b);
            assert(seq![x[0]] + (kvs_remove(x.skip(1), k) + b) =~= (seq![x[0]] + kvs_remove(
                x.skip(1),
                k,
            )) + b);
        }
    }
}

/// A key that a find locates sits at some position of the list.
pub proof fn lemma_kvs_contains_position(s: KvList, k: Seq<u8>)
    requires
        kvs_contains_key(s, k),
    ensures
        exists|i: int| 0 <= i < s.len() && (#[trigger] s[i]).0 == k,
    decreases s.len(),
{
    if s.len() > 0 {
        if s[0].0 == k {
            assert(s[0].0 == k);
        } else {
            lemma_kvs_contains_position(s.skip(1), k);
            let i = choose|i: int| 0 <= i < s.skip(1).len() && (#[trigger] s.skip(1)[i]).0 == k;
            assert(s[i + 1].0 == k);
        }
    }
}

} // verus!
