//! The copy-on-write B-tree engine.
//!
//! The tree owns the root page id and a page store. Lookup, insert and
//! delete descend recursively; a mutation never edits a page in place but
//! builds brand-new encoded nodes, persists them, re-links the parent and
//! frees the superseded pages. The tree's content is specified as a sorted
//! key-value list (`kvs`), and each operation's contract states exactly what
//! it does to that list.

use vstd::prelude::*;

use crate::kvs::KvList;
use crate::kvs::kvs_find;
use crate::kvs::kvs_insert;
use crate::kvs::kvs_remove;
use crate::kvs::kvs_sorted;
use crate::kvs::kvs_contains_key;
use crate::kvs::lemma_kvs_absent;
use crate::kvs::lemma_kvs_find_concat;
use crate::kvs::lemma_kvs_insert_find;
use crate::kvs::lemma_kvs_insert_first;
use crate::kvs::lemma_kvs_insert_sorted;
use crate::kvs::lemma_kvs_insert_prefix;
use crate::kvs::lemma_kvs_insert_concat;
use crate::kvs::lemma_kvs_remove_find;
use crate::kvs::lemma_kvs_remove_sorted;
use crate::kvs::lemma_kvs_remove_prefix;
use crate::kvs::lemma_kvs_remove_concat;
use crate::kvs::lemma_kvs_find_member;
use crate::kvs::lemma_kvs_find_index;
use crate::kvs::lemma_kvs_contains_position;
use crate::node::BNode;
use crate::node::BNODE_INTERNAL;
use crate::node::BNODE_LEAF;
use crate::node::BTREE_MAX_KEY_SIZE;
use crate::node::BTREE_MAX_VAL_SIZE;
use crate::node::BTREE_PAGE_SIZE;
use crate::node::entry_span;
use crate::node::key_at;
use crate::node::key_len;
use crate::node::val_len;
use crate::node::keys_of;
use crate::node::keys_sorted;
use crate::node::lemma_off_monotonic;
use crate::node::lemma_record_in_bounds;
use crate::node::lemma_views_prefix;
use crate::node::can_append;
use crate::node::append_effect;
use crate::node::entry_eq;
use crate::node::entry_wf;
use crate::node::kv_pos;
use crate::node::wf_upto;
use crate::node::node_kind;
use crate::node::node_size;
use crate::node::node_wf;
use crate::node::num_keys;
use crate::node::off_at;
use crate::node::ptr_at;
use crate::node::ptrs_of;
use crate::node::records_fit_page;
use crate::node::val_at;
use crate::node::vals_of;
use crate::order::KeyOrdering;
use crate::order::compare_bytes;
use crate::order::lemma_lex_le_lt_trans;
use crate::order::lemma_lex_le_trans;
use crate::order::lemma_lex_lt_le_trans;
use crate::order::lemma_lex_lt_trans;
use crate::order::lemma_lex_trichotomy;
use crate::order::lex_le;
use crate::order::lex_lt;
use crate::store::PageStore;

verus! {

/// What can go wrong: an entry too large to ever fit a page, a miss, or a
/// page whose bytes do not decode to a consistent node.
#[derive(PartialEq, Eq, Structural, Clone, Copy, Debug)]
pub enum BTreeError {
    KeyTooLarge,
    ValueTooLarge,
    NotFound,
    Corrupt,
}

/// Child page id of entry `i`, as the 64-bit id the store uses.
pub open spec fn ptr_u64(d: Seq<u8>, i: int) -> u64 {
    ptr_at(d, i) as u64
}

/// Every key of the list is at least `lo`.
pub open spec fn kvs_lower_bounded(kvs: KvList, lo: Seq<u8>) -> bool {
    forall|j: int| 0 <= j < kvs.len() ==> lex_le(lo, (#[trigger] kvs[j]).0)
}

/// Every key of the list is strictly below `hi`.
pub open spec fn kvs_upper_bounded(kvs: KvList, hi: Seq<u8>) -> bool {
    forall|j: int| 0 <= j < kvs.len() ==> lex_lt((#[trigger] kvs[j]).0, hi)
}

/// The key-value pairs a leaf node holds, in record order.
pub open spec fn leaf_kvs(d: Seq<u8>) -> KvList {
    Seq::new(num_keys(d), |i: int| (key_at(d, i), val_at(d, i)))
}

/// In-order key-value pairs of the subtree rooted at page `id`, at height
/// `h`.
pub open spec fn subtree_kvs(s: Map<u64, Seq<u8>>, id: u64, h: nat) -> KvList
    decreases h, 2int, 0int,
{
    subtree_kvs_data(s, s[id], h)
}

/// In-order key-value pairs below a node given by its bytes.
pub open spec fn subtree_kvs_data(s: Map<u64, Seq<u8>>, d: Seq<u8>, h: nat) -> KvList
    decreases h, 1int, 0int,
{
    if h == 0 {
        leaf_kvs(d)
    } else {
        kids_kvs(s, d, h, 0, num_keys(d) as int)
    }
}

/// Concatenated key-value pairs of children `lo .. hi` of an internal node.
pub open spec fn kids_kvs(s: Map<u64, Seq<u8>>, d: Seq<u8>, h: nat, lo: int, hi: int) -> KvList
    decreases h, 0int, hi - lo,
{
    if lo >= hi || h == 0 {
        Seq::empty()
    } else {
        kids_kvs(s, d, h, lo, hi - 1) + subtree_kvs(s, ptr_u64(d, hi - 1), (h - 1) as nat)
    }
}

/// Page ids of the subtree rooted at `id`: the page itself and everything
/// reachable below it.
pub open spec fn subtree_ids(s: Map<u64, Seq<u8>>, id: u64, h: nat) -> Set<u64>
    decreases h, 2int, 0int,
{
    if h == 0 {
        set![id]
    } else {
        set![id].union(kids_ids(s, s[id], h, 0, num_keys(s[id]) as int))
    }
}

/// Page ids reachable through children `lo .. hi` of an internal node.
pub open spec fn kids_ids(s: Map<u64, Seq<u8>>, d: Seq<u8>, h: nat, lo: int, hi: int) -> Set<u64>
    decreases h, 0int, hi - lo,
{
    if lo >= hi || h == 0 {
        Set::empty()
    } else {
        kids_ids(s, d, h, lo, hi - 1).union(subtree_ids(s, ptr_u64(d, hi - 1), (h - 1) as nat))
    }
}

/// Every key and value of the node respects the per-record maxima.
pub open spec fn entries_fit(d: Seq<u8>) -> bool {
    forall|i: int|
        0 <= i < num_keys(d) ==> #[trigger] key_len(d, i) <= BTREE_MAX_KEY_SIZE as nat && val_len(
            d,
            i,
        ) <= BTREE_MAX_VAL_SIZE as nat
}

/// The node-local part of subtree consistency: a decodable, nonempty node
/// with strictly sorted keys whose records respect the size maxima and each
/// fit a page alone, of the kind its height demands.
pub open spec fn node_ok(d: Seq<u8>, h: nat) -> bool {
    &&& node_wf(d)
    &&& 1 <= num_keys(d)
    &&& keys_sorted(d)
    &&& entries_fit(d)
    &&& records_fit_page(d)
    &&& node_kind(d) == if h == 0 {
        BNODE_LEAF as nat
    } else {
        BNODE_INTERNAL as nat
    }
}

/// Pages reachable below a node that is not itself stored: everything its
/// children own.
pub open spec fn subtree_ids_data(s: Map<u64, Seq<u8>>, d: Seq<u8>, h: nat) -> Set<u64> {
    if h == 0 {
        Set::empty()
    } else {
        kids_ids(s, d, h, 0, num_keys(d) as int)
    }
}

/// The key-value pairs of a contiguous window of a node's entries: records
/// of a leaf, whole child subtrees of an internal node.
pub open spec fn window_kvs(s: Map<u64, Seq<u8>>, d: Seq<u8>, h: nat, lo: int, hi: int) -> KvList {
    if h == 0 {
        leaf_kvs(d).subrange(lo, hi)
    } else {
        kids_kvs(s, d, h, lo, hi)
    }
}

/// The subtree rooted at page `id` is consistent and the page itself fits
/// one page's capacity.
pub open spec fn subtree_wf(s: Map<u64, Seq<u8>>, id: u64, h: nat) -> bool
    decreases h, 2int, 0int,
{
    &&& s.contains_key(id)
    &&& node_size(s[id]) <= BTREE_PAGE_SIZE as int
    &&& subtree_wf_data(s, s[id], h)
    &&& !subtree_ids_data(s, s[id], h).contains(id)
}

/// Subtree consistency for a node given by its bytes: the node is sound and,
/// when internal, all its children are consistent subtrees, bounded by its
/// separator keys and pairwise disjoint in the pages they own.
pub open spec fn subtree_wf_data(s: Map<u64, Seq<u8>>, d: Seq<u8>, h: nat) -> bool
    decreases h, 1int, 0int,
{
    &&& node_ok(d, h)
    &&& (h > 0 ==> kids_wf(s, d, h, 0, num_keys(d) as int))
}

/// Children `lo .. hi` of an internal node are consistent subtrees, each
/// entry's separator key equal to the minimum key reachable in its child's
/// subtree, each key range fenced by the next separator, each page set
/// disjoint from its left siblings', and none holding the parent's own page.
pub open spec fn kids_wf(s: Map<u64, Seq<u8>>, d: Seq<u8>, h: nat, lo: int, hi: int) -> bool
    decreases h, 0int, hi - lo,
{
    lo >= hi || h == 0 || {
        let c = hi - 1;
        let ckvs = subtree_kvs(s, ptr_u64(d, c), (h - 1) as nat);
        &&& kids_wf(s, d, h, lo, c)
        &&& subtree_wf(s, ptr_u64(d, c), (h - 1) as nat)
        &&& ckvs.len() >= 1
        &&& ckvs[0].0 == key_at(d, c)
        &&& kvs_lower_bounded(ckvs, key_at(d, c))
        &&& (c + 1 < num_keys(d) ==> kvs_upper_bounded(ckvs, key_at(d, c + 1)))
        &&& kids_ids(s, d, h, lo, c).disjoint(subtree_ids(s, ptr_u64(d, c), (h - 1) as nat))
    }
}

/// Splitting the child window splits its concatenated pairs and its page
/// set.
pub proof fn lemma_kids_split(s: Map<u64, Seq<u8>>, d: Seq<u8>, h: nat, lo: int, mid: int, hi: int)
    requires
        lo <= mid <= hi,
    ensures
        kids_kvs(s, d, h, lo, hi) == kids_kvs(s, d, h, lo, mid) + kids_kvs(s, d, h, mid, hi),
        kids_ids(s, d, h, lo, hi) == kids_ids(s, d, h, lo, mid).union(kids_ids(s, d, h, mid, hi)),
    decreases hi - mid,
{
    if hi == mid || h == 0 {
        assert(kids_kvs(s, d, h, mid, hi) =~= Seq::empty());
        assert(kids_kvs(s, d, h, lo, mid) + kids_kvs(s, d, h, mid, hi) =~= kids_kvs(
            s,
            d,
            h,
            lo,
            mid,
        ));
        if h == 0 {
            assert(kids_kvs(s, d, h, lo, hi) =~= Seq::empty());
            assert(kids_kvs(s, d, h, lo, mid) =~= Seq::empty());
            assert(kids_ids(s, d, h, lo, hi) =~= kids_ids(s, d, h, lo, mid).union(
                kids_ids(s, d, h, mid, hi),
            ));
        } else {
            assert(kids_ids(s, d, h, mid, hi) =~= Set::empty());
            assert(kids_ids(s, d, h, lo, hi) =~= kids_ids(s, d, h, lo, mid).union(
                kids_ids(s, d, h, mid, hi),
            ));
        }
    } else {
        lemma_kids_split(s, d, h, lo, mid, hi - 1);
        assert((kids_kvs(s, d, h, lo, mid) + kids_kvs(s, d, h, mid, hi - 1)) + subtree_kvs(
            s,
            ptr_u64(d, hi - 1),
            (h - 1) as nat,
        ) =~= kids_kvs(s, d, h, lo, mid) + (kids_kvs(s, d, h, mid, hi - 1) + subtree_kvs(
            s,
            ptr_u64(d, hi - 1),
            (h - 1) as nat,
        )));
        assert((kids_ids(s, d, h, lo, mid).union(kids_ids(s, d, h, mid, hi - 1))).union(
            subtree_ids(s, ptr_u64(d, hi - 1), (h - 1) as nat),
        ) =~= kids_ids(s, d, h, lo, mid).union(
            kids_ids(s, d, h, mid, hi - 1).union(
                subtree_ids(s, ptr_u64(d, hi - 1), (h - 1) as nat),
            ),
        ));
    }
}

/// A one-child window is that child's subtree.
pub proof fn lemma_kids_one(s: Map<u64, Seq<u8>>, d: Seq<u8>, h: nat, j: int)
    requires
        h > 0,
    ensures
        kids_kvs(s, d, h, j, j + 1) == subtree_kvs(s, ptr_u64(d, j), (h - 1) as nat),
        kids_ids(s, d, h, j, j + 1) == subtree_ids(s, ptr_u64(d, j), (h - 1) as nat),
{
    assert(kids_kvs(s, d, h, j, j) =~= Seq::empty());
    assert(Seq::empty() + subtree_kvs(s, ptr_u64(d, j), (h - 1) as nat) =~= subtree_kvs(
        s,
        ptr_u64(d, j),
        (h - 1) as nat,
    ));
    assert(kids_ids(s, d, h, j, j).union(subtree_ids(s, ptr_u64(d, j), (h - 1) as nat))
        =~= subtree_ids(s, ptr_u64(d, j), (h - 1) as nat));
}

/// Narrowing a consistent child window keeps it consistent, and each child
/// in it is a consistent, fenced subtree.
pub proof fn lemma_kids_wf_elim(
    s: Map<u64, Seq<u8>>,
    d: Seq<u8>,
    h: nat,
    lo: int,
    hi: int,
    j: int,
)
    requires
        kids_wf(s, d, h, lo, hi),
        lo <= j < hi,
        h > 0,
    ensures
        subtree_wf(s, ptr_u64(d, j), (h - 1) as nat),
        subtree_kvs(s, ptr_u64(d, j), (h - 1) as nat).len() >= 1,
        subtree_kvs(s, ptr_u64(d, j), (h - 1) as nat)[0].0 == key_at(d, j),
        kvs_lower_bounded(subtree_kvs(s, ptr_u64(d, j), (h - 1) as nat), key_at(d, j)),
        j + 1 < num_keys(d) ==> kvs_upper_bounded(
            subtree_kvs(s, ptr_u64(d, j), (h - 1) as nat),
            key_at(d, j + 1),
        ),
    decreases hi - j,
{
    if j < hi - 1 {
        lemma_kids_wf_elim(s, d, h, lo, hi - 1, j);
    }
}

/// The first pair of a nonempty child window comes from its first child.
proof fn lemma_kids_kvs_first(s: Map<u64, Seq<u8>>, d: Seq<u8>, h: nat, lo: int, hi: int)
    requires
        kids_wf(s, d, h, lo, hi),
        h > 0,
        lo < hi,
    ensures
        kids_kvs(s, d, h, lo, hi).len() >= 1,
        kids_kvs(s, d, h, lo, hi)[0] == subtree_kvs(s, ptr_u64(d, lo), (h - 1) as nat)[0],
    decreases hi - lo,
{
    let x = subtree_kvs(s, ptr_u64(d, hi - 1), (h - 1) as nat);
    if lo == hi - 1 {
        assert(kids_kvs(s, d, h, lo, lo) =~= Seq::<(Seq<u8>, Seq<u8>)>::empty());
        assert((kids_kvs(s, d, h, lo, lo) + x)[0] == x[0]);
    } else {
        lemma_kids_wf_narrow(s, d, h, lo, hi, hi - 1);
        lemma_kids_kvs_first(s, d, h, lo, hi - 1);
        assert((kids_kvs(s, d, h, lo, hi - 1) + x)[0] == kids_kvs(s, d, h, lo, hi - 1)[0]);
    }
}

/// In a consistent subtree the node's first key is the smallest key of its
/// content: the pairs are nonempty and begin with that key.
pub proof fn lemma_subtree_first_key(s: Map<u64, Seq<u8>>, d: Seq<u8>, h: nat)
    requires
        subtree_wf_data(s, d, h),
    ensures
        subtree_kvs_data(s, d, h).len() >= 1,
        subtree_kvs_data(s, d, h)[0].0 == key_at(d, 0),
{
    lemma_subtree_kvs_props(s, d, h);
    if h > 0 {
        let n = num_keys(d) as int;
        lemma_kids_kvs_first(s, d, h, 0, n);
        lemma_kids_wf_narrow(s, d, h, 0, n, 1);
        assert(subtree_kvs(s, ptr_u64(d, 0), (h - 1) as nat)[0].0 == key_at(d, 0));
    }
}

/// A nonempty window of a consistent node begins with the pair under its
/// first separator key.
pub proof fn lemma_window_min(s: Map<u64, Seq<u8>>, d: Seq<u8>, h: nat, lo: int, hi: int)
    requires
        subtree_wf_data(s, d, h),
        0 <= lo < hi <= num_keys(d),
    ensures
        window_kvs(s, d, h, lo, hi).len() >= 1,
        window_kvs(s, d, h, lo, hi)[0].0 == key_at(d, lo),
{
    if h == 0 {
        assert(window_kvs(s, d, h, lo, hi)[0] == leaf_kvs(d)[lo]);
    } else {
        let n = num_keys(d) as int;
        lemma_kids_wf_narrow(s, d, h, 0, n, hi);
        lemma_kids_wf_tail(s, d, h, 0, hi, lo);
        lemma_kids_kvs_first(s, d, h, lo, hi);
        lemma_kids_wf_narrow(s, d, h, lo, hi, lo + 1);
        assert(subtree_kvs(s, ptr_u64(d, lo), (h - 1) as nat)[0].0 == key_at(d, lo));
    }
}

/// A consistent child window stays consistent when its right end moves
/// left.
pub proof fn lemma_kids_wf_narrow(
    s: Map<u64, Seq<u8>>,
    d: Seq<u8>,
    h: nat,
    lo: int,
    hi: int,
    hi2: int,
)
    requires
        kids_wf(s, d, h, lo, hi),
        lo <= hi2 <= hi,
    ensures
        kids_wf(s, d, h, lo, hi2),
    decreases hi - hi2,
{
    if hi2 < hi && h > 0 && lo < hi {
        lemma_kids_wf_narrow(s, d, h, lo, hi - 1, hi2);
    }
}

/// A consistent child window stays consistent when its left end moves
/// right.
pub proof fn lemma_kids_wf_tail(
    s: Map<u64, Seq<u8>>,
    d: Seq<u8>,
    h: nat,
    lo: int,
    hi: int,
    lo2: int,
)
    requires
        kids_wf(s, d, h, lo, hi),
        lo <= lo2 <= hi,
        h > 0,
    ensures
        kids_wf(s, d, h, lo2, hi),
    decreases hi - lo2,
{
    if lo2 < hi {
        let c = hi - 1;
        lemma_kids_wf_tail(s, d, h, lo, c, lo2);
        assert forall|p: u64| #[trigger] kids_ids(s, d, h, lo2, c).contains(p) implies kids_ids(
            s,
            d,
            h,
            lo,
            c,
        ).contains(p) by {
            lemma_kids_ids_member(s, d, h, lo2, c, p);
            lemma_kids_ids_member(s, d, h, lo, c, p);
        }
        assert(kids_ids(s, d, h, lo2, c).disjoint(subtree_ids(s, ptr_u64(d, c), (h - 1) as nat)));
    }
}

/// A page reachable through a child window is reachable through one of its
/// children.
pub proof fn lemma_kids_ids_member(
    s: Map<u64, Seq<u8>>,
    d: Seq<u8>,
    h: nat,
    lo: int,
    hi: int,
    p: u64,
)
    requires
        h > 0,
    ensures
        kids_ids(s, d, h, lo, hi).contains(p) <==> exists|j: int|
            lo <= j < hi && (#[trigger] subtree_ids(s, ptr_u64(d, j), (h - 1) as nat)).contains(p),
    decreases hi - lo,
{
    if lo < hi {
        lemma_kids_ids_member(s, d, h, lo, hi - 1, p);
        if subtree_ids(s, ptr_u64(d, hi - 1), (h - 1) as nat).contains(p) {
            assert(kids_ids(s, d, h, lo, hi).contains(p));
        }
    }
}

/// Every page of a consistent subtree is live in the store; the subtree's
/// root is among its pages.
pub proof fn lemma_subtree_ids_in_dom(s: Map<u64, Seq<u8>>, id: u64, h: nat)
    requires
        subtree_wf(s, id, h),
    ensures
        forall|p: u64| #[trigger] subtree_ids(s, id, h).contains(p) ==> s.contains_key(p),
        subtree_ids(s, id, h).contains(id),
    decreases h, 1int, 0int,
{
    if h > 0 {
        lemma_kids_ids_in_dom(s, s[id], h, 0, num_keys(s[id]) as int);
    }
    assert forall|p: u64| #[trigger] subtree_ids(s, id, h).contains(p) implies s.contains_key(
        p,
    ) by {
        if h > 0 && p != id {
            assert(kids_ids(s, s[id], h, 0, num_keys(s[id]) as int).contains(p));
        }
    }
}

/// Every page reachable through a consistent child window is live.
pub proof fn lemma_kids_ids_in_dom(s: Map<u64, Seq<u8>>, d: Seq<u8>, h: nat, lo: int, hi: int)
    requires
        kids_wf(s, d, h, lo, hi),
        h > 0,
    ensures
        forall|p: u64| #[trigger] kids_ids(s, d, h, lo, hi).contains(p) ==> s.contains_key(p),
    decreases h, 0int, hi - lo,
{
    if lo < hi {
        lemma_kids_ids_in_dom(s, d, h, lo, hi - 1);
        lemma_subtree_ids_in_dom(s, ptr_u64(d, hi - 1), (h - 1) as nat);
    }
}

/// Frame rule of the store: a store that agrees with another on every page
/// of a consistent subtree gives that subtree the same consistency, pairs
/// and pages.
pub proof fn lemma_subtree_frame(s1: Map<u64, Seq<u8>>, s2: Map<u64, Seq<u8>>, id: u64, h: nat)
    requires
        subtree_wf(s1, id, h),
        forall|p: u64| #[trigger] subtree_ids(s1, id, h).contains(p) ==> s2.contains_key(p)
            && s2[p] == s1[p],
    ensures
        subtree_wf(s2, id, h),
        subtree_kvs(s2, id, h) == subtree_kvs(s1, id, h),
        subtree_ids(s2, id, h) == subtree_ids(s1, id, h),
    decreases h, 1int, 0int,
{
    assert(subtree_ids(s1, id, h).contains(id));
    assert(s2[id] == s1[id]);
    if h == 0 {
        assert(subtree_ids(s2, id, h) =~= subtree_ids(s1, id, h));
    } else {
        let d = s1[id];
        let n = num_keys(d) as int;
        assert forall|p: u64| #[trigger] kids_ids(s1, d, h, 0, n).contains(p) implies
            s2.contains_key(p) && s2[p] == s1[p] by {
            assert(subtree_ids(s1, id, h).contains(p));
        }
        lemma_kids_frame(s1, s2, d, h, 0, n);
        assert(subtree_ids(s2, id, h) =~= subtree_ids(s1, id, h));
    }
}

/// Frame rule for a child window.
pub proof fn lemma_kids_frame(
    s1: Map<u64, Seq<u8>>,
    s2: Map<u64, Seq<u8>>,
    d: Seq<u8>,
    h: nat,
    lo: int,
    hi: int,
)
    requires
        kids_wf(s1, d, h, lo, hi),
        h > 0,
        forall|p: u64| #[trigger] kids_ids(s1, d, h, lo, hi).contains(p) ==> s2.contains_key(p)
            && s2[p] == s1[p],
    ensures
        kids_wf(s2, d, h, lo, hi),
        kids_kvs(s2, d, h, lo, hi) == kids_kvs(s1, d, h, lo, hi),
        kids_ids(s2, d, h, lo, hi) == kids_ids(s1, d, h, lo, hi),
    decreases h, 0int, hi - lo,
{
    if lo >= hi {
        assert(kids_ids(s2, d, h, lo, hi) =~= kids_ids(s1, d, h, lo, hi));
    } else {
        let c = hi - 1;
        assert forall|p: u64| #[trigger] kids_ids(s1, d, h, lo, c).contains(p) implies
            s2.contains_key(p) && s2[p] == s1[p] by {
            assert(kids_ids(s1, d, h, lo, hi).contains(p));
        }
        lemma_kids_frame(s1, s2, d, h, lo, c);
        assert forall|p: u64| #[trigger] subtree_ids(s1, ptr_u64(d, c), (h - 1) as nat).contains(
            p,
        ) implies s2.contains_key(p) && s2[p] == s1[p] by {
            assert(kids_ids(s1, d, h, lo, hi).contains(p));
        }
        lemma_subtree_frame(s1, s2, ptr_u64(d, c), (h - 1) as nat);
        assert(kids_ids(s2, d, h, lo, hi) =~= kids_ids(s1, d, h, lo, hi));
    }
}

/// A consistent subtree's pairs are sorted, nonempty, and bounded below by
/// the node's first key.
pub proof fn lemma_subtree_kvs_props(s: Map<u64, Seq<u8>>, d: Seq<u8>, h: nat)
    requires
        subtree_wf_data(s, d, h),
    ensures
        kvs_sorted(subtree_kvs_data(s, d, h)),
        subtree_kvs_data(s, d, h).len() >= 1,
        kvs_lower_bounded(subtree_kvs_data(s, d, h), key_at(d, 0)),
    decreases h, 1int, 0int,
{
    if h == 0 {
        let kvs = leaf_kvs(d);
        assert forall|i: int, j: int| 0 <= i < j < kvs.len() implies lex_lt(kvs[i].0, kvs[j].0) by {
            assert(lex_lt(key_at(d, i), key_at(d, j)));
        }
        assert forall|j: int| 0 <= j < kvs.len() implies lex_le(key_at(d, 0), (#[trigger] kvs[j]).0) by {
            if j > 0 {
                assert(lex_lt(key_at(d, 0), key_at(d, j)));
            }
        }
    } else {
        lemma_kids_kvs_props(s, d, h, 0, num_keys(d) as int);
    }
}

/// A consistent child window's concatenated pairs are sorted, have at least
/// one pair per child, are bounded below by separator `lo` and, when the
/// window stops short of the last child, bounded above by separator `hi`.
pub proof fn lemma_kids_kvs_props(s: Map<u64, Seq<u8>>, d: Seq<u8>, h: nat, lo: int, hi: int)
    requires
        kids_wf(s, d, h, lo, hi),
        h > 0,
        0 <= lo <= hi <= num_keys(d),
        keys_sorted(d),
        node_wf(d),
    ensures
        kvs_sorted(kids_kvs(s, d, h, lo, hi)),
        kids_kvs(s, d, h, lo, hi).len() >= hi - lo,
        lo < hi ==> kvs_lower_bounded(kids_kvs(s, d, h, lo, hi), key_at(d, lo)),
        hi < num_keys(d) ==> kvs_upper_bounded(kids_kvs(s, d, h, lo, hi), key_at(d, hi)),
    decreases h, 0int, hi - lo,
{
    if lo >= hi {
    } else {
        let c = hi - 1;
        let cid = ptr_u64(d, c);
        let a = kids_kvs(s, d, h, lo, c);
        let b = subtree_kvs(s, cid, (h - 1) as nat);
        lemma_kids_kvs_props(s, d, h, lo, c);
        assert(subtree_wf(s, cid, (h - 1) as nat));
        lemma_subtree_kvs_props(s, s[cid], (h - 1) as nat);
        assert(b.len() >= 1);
        // sortedness of the concatenation
        assert forall|i: int, j: int|
            0 <= i < j < (a + b).len() implies lex_lt((a + b)[i].0, (a + b)[j].0) by {
            if j < a.len() {
                assert((a + b)[i] == a[i] && (a + b)[j] == a[j]);
            } else if i >= a.len() {
                assert((a + b)[i] == b[i - a.len()] && (a + b)[j] == b[j - a.len()]);
            } else {
                assert((a + b)[i] == a[i] && (a + b)[j] == b[j - a.len()]);
                assert(lex_lt(a[i].0, key_at(d, c)));
                assert(lex_le(key_at(d, c), b[j - a.len()].0));
                lemma_lex_lt_le_trans(a[i].0, key_at(d, c), b[j - a.len()].0);
            }
        }
        // lower bound by separator lo
        assert forall|j: int|
            0 <= j < (a + b).len() implies lex_le(key_at(d, lo), (#[trigger] (a + b)[j]).0) by {
            if j < a.len() {
                assert(lex_le(key_at(d, lo), a[j].0));
            } else {
                assert(lex_le(key_at(d, c), b[j - a.len()].0));
                if lo < c {
                    assert(lex_lt(key_at(d, lo), key_at(d, c)));
                    lemma_lex_lt_le_trans(key_at(d, lo), key_at(d, c), b[j - a.len()].0);
                }
            }
        }
        // upper bound by separator hi
        if hi < num_keys(d) {
            assert forall|j: int|
                0 <= j < (a + b).len() implies lex_lt((#[trigger] (a + b)[j]).0, key_at(d, hi)) by {
                if j < a.len() {
                    assert(lex_lt(a[j].0, key_at(d, c)));
                    assert(lex_lt(key_at(d, c), key_at(d, hi)));
                    lemma_lex_lt_trans(a[j].0, key_at(d, c), key_at(d, hi));
                } else {
                    assert(lex_lt(b[j - a.len()].0, key_at(d, hi)));
                }
            }
        }
    }
}

/// In a consistent internal node, a key that the lookup routes to child `i`
/// is found in the whole subtree exactly where it is found in that child.
#[verifier::rlimit(100)]
pub proof fn lemma_route(s: Map<u64, Seq<u8>>, d: Seq<u8>, h: nat, i: int, k: Seq<u8>)
    requires
        subtree_wf_data(s, d, h),
        h > 0,
        0 <= i < num_keys(d),
        lex_le(key_at(d, i), k),
        i + 1 == num_keys(d) || lex_lt(k, key_at(d, i + 1)),
    ensures
        subtree_kvs_data(s, d, h) == kids_kvs(s, d, h, 0, i) + subtree_kvs(
            s,
            ptr_u64(d, i),
            (h - 1) as nat,
        ) + kids_kvs(s, d, h, i + 1, num_keys(d) as int),
        kvs_upper_bounded(kids_kvs(s, d, h, 0, i), k) && (forall|j: int|
            0 <= j < kids_kvs(s, d, h, 0, i).len() ==> lex_lt(
                (#[trigger] kids_kvs(s, d, h, 0, i)[j]).0,
                k,
            )),
        forall|j: int|
            0 <= j < kids_kvs(s, d, h, i + 1, num_keys(d) as int).len() ==> lex_lt(
                k,
                (#[trigger] kids_kvs(s, d, h, i + 1, num_keys(d) as int)[j]).0,
            ),
        kvs_find(subtree_kvs_data(s, d, h), k) == kvs_find(
            subtree_kvs(s, ptr_u64(d, i), (h - 1) as nat),
            k,
        ),
{
    let n = num_keys(d) as int;
    let a = kids_kvs(s, d, h, 0, i);
    let x = subtree_kvs(s, ptr_u64(d, i), (h - 1) as nat);
    let b = kids_kvs(s, d, h, i + 1, n);
    lemma_kids_split(s, d, h, 0, i, n);
    lemma_kids_split(s, d, h, i, i + 1, n);
    lemma_kids_one(s, d, h, i);
    assert(kids_kvs(s, d, h, 0, n) == a + (x + b));
    assert(a + (x + b) =~= a + x + b);
    lemma_kids_wf_narrow(s, d, h, 0, n, i);
    lemma_kids_wf_tail(s, d, h, 0, n, i + 1);
    lemma_kids_kvs_props(s, d, h, 0, i);
    lemma_kids_kvs_props(s, d, h, i + 1, n);
    // everything left of child i is strictly below k
    assert forall|j: int| 0 <= j < a.len() implies lex_lt((#[trigger] a[j]).0, k) by {
        assert(lex_lt(a[j].0, key_at(d, i)));
        lemma_lex_lt_le_trans(a[j].0, key_at(d, i), k);
    }
    // everything right of child i is strictly above k
    assert forall|j: int| 0 <= j < b.len() implies lex_lt(k, (#[trigger] b[j]).0) by {
        assert(i + 1 < n);
        assert(lex_le(key_at(d, i + 1), b[j].0));
        lemma_lex_lt_le_trans(k, key_at(d, i + 1), b[j].0);
    }
    // the search shoots past the left part, hits the child, never needs the
    // right part
    assert forall|j: int| 0 <= j < a.len() implies (#[trigger] a[j]).0 != k by {
        lemma_lex_trichotomy(a[j].0, k);
    }
    lemma_kvs_absent(a, k);
    assert forall|j: int| 0 <= j < b.len() implies (#[trigger] b[j]).0 != k by {
        lemma_lex_trichotomy(k, b[j].0);
    }
    lemma_kvs_absent(b, k);
    lemma_kvs_find_concat(a, x + b, k);
    lemma_kvs_find_concat(x, b, k);
    assert(a + x + b =~= a + (x + b));
    assert(kvs_find(subtree_kvs_data(s, d, h), k) == kvs_find(x, k));
}

/// In a consistent subtree every key is at least the node's first key; a key
/// below the first key is absent.
pub proof fn lemma_before_first_absent(s: Map<u64, Seq<u8>>, d: Seq<u8>, h: nat, k: Seq<u8>)
    requires
        subtree_wf_data(s, d, h),
        lex_lt(k, key_at(d, 0)),
    ensures
        kvs_find(subtree_kvs_data(s, d, h), k) is None,
        kvs_remove(subtree_kvs_data(s, d, h), k) == subtree_kvs_data(s, d, h),
{
    let kvs = subtree_kvs_data(s, d, h);
    lemma_subtree_kvs_props(s, d, h);
    assert forall|j: int| 0 <= j < kvs.len() implies (#[trigger] kvs[j]).0 != k by {
        assert(lex_le(key_at(d, 0), kvs[j].0));
        lemma_lex_lt_le_trans(k, key_at(d, 0), kvs[j].0);
        lemma_lex_trichotomy(k, kvs[j].0);
    }
    lemma_kvs_absent(kvs, k);
}

/// Where the lookup's answer lands a search within a leaf.
pub proof fn lemma_leaf_find(d: Seq<u8>, i: int, k: Seq<u8>)
    requires
        node_wf(d),
        keys_sorted(d),
        0 <= i < num_keys(d),
        lex_le(key_at(d, i), k),
        i + 1 == num_keys(d) || lex_lt(k, key_at(d, i + 1)),
    ensures
        kvs_find(leaf_kvs(d), k) == if key_at(d, i) == k {
            Some(val_at(d, i))
        } else {
            None::<Seq<u8>>
        },
{
    let kvs = leaf_kvs(d);
    let n = num_keys(d) as int;
    let a = kvs.subrange(0, i);
    let x = kvs.subrange(i, i + 1);
    let b = kvs.subrange(i + 1, n);
    assert(kvs =~= a + x + b);
    assert forall|j: int| 0 <= j < a.len() implies (#[trigger] a[j]).0 != k by {
        assert(a[j] == kvs[j]);
        assert(lex_lt(key_at(d, j), key_at(d, i)));
        lemma_lex_lt_le_trans(key_at(d, j), key_at(d, i), k);
        lemma_lex_trichotomy(a[j].0, k);
    }
    lemma_kvs_absent(a, k);
    assert forall|j: int| 0 <= j < b.len() implies (#[trigger] b[j]).0 != k by {
        assert(b[j] == kvs[i + 1 + j]);
        if i + 1 + j > i + 1 {
            assert(lex_lt(key_at(d, i + 1), key_at(d, i + 1 + j)));
            lemma_lex_lt_trans(k, key_at(d, i + 1), key_at(d, i + 1 + j));
        }
        lemma_lex_trichotomy(k, b[j].0);
    }
    lemma_kvs_absent(b, k);
    assert(a + x + b =~= a + (x + b));
    lemma_kvs_find_concat(a, x + b, k);
    lemma_kvs_find_concat(x, b, k);
    assert(x[0] == kvs[i]);
    if key_at(d, i) == k {
        assert(kvs_find(x, k) == Some(val_at(d, i)));
    } else {
        assert(kvs_find(x.skip(1), k) is None);
    }
}

/// Two distinct children of a consistent window own disjoint page sets.
pub proof fn lemma_kids_disjoint_pair(
    s: Map<u64, Seq<u8>>,
    d: Seq<u8>,
    h: nat,
    lo: int,
    hi: int,
    j1: int,
    j2: int,
)
    requires
        kids_wf(s, d, h, lo, hi),
        h > 0,
        lo <= j1 < j2 < hi,
    ensures
        subtree_ids(s, ptr_u64(d, j1), (h - 1) as nat).disjoint(
            subtree_ids(s, ptr_u64(d, j2), (h - 1) as nat),
        ),
    decreases hi - j2,
{
    if j2 == hi - 1 {
        assert(kids_ids(s, d, h, lo, j2).disjoint(subtree_ids(s, ptr_u64(d, j2), (h - 1) as nat)));
        assert forall|p: u64|
            #[trigger] subtree_ids(s, ptr_u64(d, j1), (h - 1) as nat).contains(p) implies
            !subtree_ids(s, ptr_u64(d, j2), (h - 1) as nat).contains(p) by {
            lemma_kids_ids_member(s, d, h, lo, j2, p);
            assert(kids_ids(s, d, h, lo, j2).contains(p));
        }
    } else {
        lemma_kids_wf_narrow(s, d, h, lo, hi, hi - 1);
        lemma_kids_disjoint_pair(s, d, h, lo, hi - 1, j1, j2);
    }
}

/// Joining two consistent windows whose pages do not overlap gives one
/// consistent window.
pub proof fn lemma_kids_wf_join(s: Map<u64, Seq<u8>>, d: Seq<u8>, h: nat, lo: int, mid: int, hi: int)
    requires
        h > 0,
        lo <= mid <= hi,
        kids_wf(s, d, h, lo, mid),
        kids_wf(s, d, h, mid, hi),
        kids_ids(s, d, h, lo, mid).disjoint(kids_ids(s, d, h, mid, hi)),
    ensures
        kids_wf(s, d, h, lo, hi),
    decreases hi - mid,
{
    if mid < hi {
        let c = hi - 1;
        lemma_kids_wf_narrow(s, d, h, mid, hi, c);
        lemma_kids_split(s, d, h, mid, c, hi);
        lemma_kids_one(s, d, h, c);
        assert(kids_ids(s, d, h, c, hi) == subtree_ids(s, ptr_u64(d, c), (h - 1) as nat));
        assert forall|p: u64| kids_ids(s, d, h, lo, mid).contains(p) implies !kids_ids(
            s,
            d,
            h,
            mid,
            c,
        ).contains(p) by {
            assert(kids_ids(s, d, h, mid, hi).contains(p) == (kids_ids(s, d, h, mid, c).contains(p)
                || kids_ids(s, d, h, c, hi).contains(p)));
        }
        lemma_kids_wf_join(s, d, h, lo, mid, c);
        lemma_kids_split(s, d, h, lo, mid, c);
        assert forall|p: u64| kids_ids(s, d, h, lo, c).contains(p) implies !subtree_ids(
            s,
            ptr_u64(d, c),
            (h - 1) as nat,
        ).contains(p) by {
            assert(kids_ids(s, d, h, lo, c).contains(p) == (kids_ids(s, d, h, lo, mid).contains(p)
                || kids_ids(s, d, h, mid, c).contains(p)));
            if kids_ids(s, d, h, lo, mid).contains(p) {
                assert(kids_ids(s, d, h, mid, hi).contains(p) == (kids_ids(s, d, h, mid, c).contains(
                    p,
                ) || kids_ids(s, d, h, c, hi).contains(p)));
            } else {
                assert(kids_ids(s, d, h, mid, c).disjoint(
                    subtree_ids(s, ptr_u64(d, c), (h - 1) as nat),
                ));
            }
        }
        assert(kids_ids(s, d, h, lo, c).disjoint(subtree_ids(s, ptr_u64(d, c), (h - 1) as nat)));
        assert(kids_wf(s, d, h, lo, hi));
    }
}

/// Carrying a consistent window of children over to another node that holds
/// the same separator keys and pointers at shifted positions.
#[verifier::rlimit(100)]
pub proof fn lemma_kids_window_transfer(
    s: Map<u64, Seq<u8>>,
    dr: Seq<u8>,
    dp: Seq<u8>,
    h: nat,
    lo: int,
    plo: int,
    len: int,
)
    requires
        h > 0,
        0 <= lo,
        0 <= plo,
        0 <= len,
        lo + len <= num_keys(dr),
        plo + len <= num_keys(dp),
        forall|j: int|
            plo <= j < plo + len ==> #[trigger] key_at(dp, j) == key_at(dr, j - plo + lo),
        forall|j: int|
            plo <= j < plo + len ==> #[trigger] ptr_at(dp, j) == ptr_at(dr, j - plo + lo),
        kids_wf(s, dr, h, lo, lo + len),
        len > 0 && plo + len < num_keys(dp) ==> (lo + len < num_keys(dr) && lex_le(
            key_at(dr, lo + len),
            key_at(dp, plo + len),
        )),
    ensures
        kids_wf(s, dp, h, plo, plo + len),
        kids_kvs(s, dp, h, plo, plo + len) == kids_kvs(s, dr, h, lo, lo + len),
        kids_ids(s, dp, h, plo, plo + len) == kids_ids(s, dr, h, lo, lo + len),
    decreases len,
{
    if len == 0 {
        assert(kids_kvs(s, dp, h, plo, plo) =~= kids_kvs(s, dr, h, lo, lo));
        assert(kids_ids(s, dp, h, plo, plo) =~= kids_ids(s, dr, h, lo, lo));
    } else {
        let c = plo + len - 1;
        let cr = lo + len - 1;
        lemma_kids_wf_narrow(s, dr, h, lo, lo + len, cr);
        lemma_kids_window_transfer(s, dr, dp, h, lo, plo, len - 1);
        assert(key_at(dp, c) == key_at(dr, cr));
        assert(ptr_at(dp, c) == ptr_at(dr, cr));
        assert(ptr_u64(dp, c) == ptr_u64(dr, cr));
        let ckvs = subtree_kvs(s, ptr_u64(dr, cr), (h - 1) as nat);
        assert(subtree_wf(s, ptr_u64(dr, cr), (h - 1) as nat));
        assert(kvs_lower_bounded(ckvs, key_at(dr, cr)));
        if c + 1 < num_keys(dp) {
            assert(c + 1 == plo + len);
            assert(lo + len < num_keys(dr));
            assert(kvs_upper_bounded(ckvs, key_at(dr, lo + len)));
            assert forall|j: int|
                0 <= j < ckvs.len() implies lex_lt((#[trigger] ckvs[j]).0, key_at(dp, c + 1)) by {
                lemma_lex_lt_le_trans(ckvs[j].0, key_at(dr, lo + len), key_at(dp, c + 1));
            }
        }
        assert(kids_ids(s, dp, h, plo, c).disjoint(subtree_ids(s, ptr_u64(dp, c), (h - 1) as nat)));
        assert(kids_wf(s, dp, h, plo, plo + len));
    }
}

/// A window of one or more whole entries of a consistent node, seen on its
/// own, is sorted and fenced by the node's separator keys.
pub proof fn lemma_window_props(s: Map<u64, Seq<u8>>, d: Seq<u8>, h: nat, lo: int, hi: int)
    requires
        subtree_wf_data(s, d, h),
        0 <= lo < hi <= num_keys(d),
    ensures
        kvs_sorted(window_kvs(s, d, h, lo, hi)),
        window_kvs(s, d, h, lo, hi).len() >= hi - lo,
        kvs_lower_bounded(window_kvs(s, d, h, lo, hi), key_at(d, lo)),
        hi < num_keys(d) ==> kvs_upper_bounded(window_kvs(s, d, h, lo, hi), key_at(d, hi)),
{
    let w = window_kvs(s, d, h, lo, hi);
    if h == 0 {
        assert forall|i: int, j: int| 0 <= i < j < w.len() implies lex_lt(w[i].0, w[j].0) by {
            assert(w[i] == leaf_kvs(d)[lo + i] && w[j] == leaf_kvs(d)[lo + j]);
            assert(lex_lt(key_at(d, lo + i), key_at(d, lo + j)));
        }
        assert forall|j: int| 0 <= j < w.len() implies lex_le(key_at(d, lo), (#[trigger] w[j]).0) by {
            assert(w[j] == leaf_kvs(d)[lo + j]);
            if j > 0 {
                assert(lex_lt(key_at(d, lo), key_at(d, lo + j)));
            }
        }
        if hi < num_keys(d) {
            assert forall|j: int| 0 <= j < w.len() implies lex_lt((#[trigger] w[j]).0, key_at(d, hi)) by {
                assert(w[j] == leaf_kvs(d)[lo + j]);
                assert(lex_lt(key_at(d, lo + j), key_at(d, hi)));
            }
        }
    } else {
        lemma_kids_wf_narrow(s, d, h, 0, num_keys(d) as int, hi);
        lemma_kids_wf_tail(s, d, h, 0, hi, lo);
        lemma_kids_kvs_props(s, d, h, lo, hi);
    }
}

/// Splitting a window splits its pairs.
pub proof fn lemma_window_split(s: Map<u64, Seq<u8>>, d: Seq<u8>, h: nat, lo: int, mid: int, hi: int)
    requires
        0 <= lo <= mid <= hi <= num_keys(d),
    ensures
        window_kvs(s, d, h, lo, hi) == window_kvs(s, d, h, lo, mid) + window_kvs(s, d, h, mid, hi),
{
    if h == 0 {
        assert(window_kvs(s, d, h, lo, hi) =~= window_kvs(s, d, h, lo, mid) + window_kvs(
            s,
            d,
            h,
            mid,
            hi,
        ));
    } else {
        lemma_kids_split(s, d, h, lo, mid, hi);
    }
}

/// The full window is the whole subtree's content.
pub proof fn lemma_window_total(s: Map<u64, Seq<u8>>, d: Seq<u8>, h: nat)
    ensures
        window_kvs(s, d, h, 0, num_keys(d) as int) == subtree_kvs_data(s, d, h),
{
    if h == 0 {
        assert(leaf_kvs(d).subrange(0, num_keys(d) as int) =~= leaf_kvs(d));
    }
}

/// A node that carries a window of another consistent node's entries is a
/// consistent subtree over that window's content.
#[verifier::rlimit(100)]
pub proof fn lemma_piece_lift(
    s: Map<u64, Seq<u8>>,
    dr: Seq<u8>,
    dp: Seq<u8>,
    h: nat,
    lo: int,
    len: int,
)
    requires
        subtree_wf_data(s, dr, h),
        node_wf(dp),
        node_kind(dp) == node_kind(dr),
        0 <= lo,
        1 <= len,
        num_keys(dp) == len,
        lo + len <= num_keys(dr),
        keys_of(dp) == keys_of(dr).subrange(lo, lo + len),
        vals_of(dp) == vals_of(dr).subrange(lo, lo + len),
        ptrs_of(dp) == ptrs_of(dr).subrange(lo, lo + len),
    ensures
        subtree_wf_data(s, dp, h),
        subtree_kvs_data(s, dp, h) == window_kvs(s, dr, h, lo, lo + len),
        subtree_ids_data(s, dp, h) == (if h == 0 {
            Set::<u64>::empty()
        } else {
            kids_ids(s, dr, h, lo, lo + len)
        }),
{
    assert forall|j: int| 0 <= j < len implies #[trigger] key_at(dp, j) == key_at(dr, lo + j) by {
        assert(keys_of(dp)[j] == keys_of(dr).subrange(lo, lo + len)[j]);
    }
    assert forall|j: int| 0 <= j < len implies #[trigger] val_at(dp, j) == val_at(dr, lo + j) by {
        assert(vals_of(dp)[j] == vals_of(dr).subrange(lo, lo + len)[j]);
    }
    assert forall|j: int| 0 <= j < len implies #[trigger] ptr_at(dp, j) == ptr_at(dr, lo + j) by {
        assert(ptrs_of(dp)[j] == ptrs_of(dr).subrange(lo, lo + len)[j]);
    }
    assert forall|j: int| 0 <= j < len implies #[trigger] key_len(dp, j) == key_len(dr, lo + j)
        && val_len(dp, j) == val_len(dr, lo + j) by {
        lemma_record_in_bounds(dp, j);
        lemma_record_in_bounds(dr, lo + j);
        assert(key_at(dp, j).len() == key_len(dp, j));
        assert(key_at(dr, lo + j).len() == key_len(dr, lo + j));
        assert(val_at(dp, j).len() == val_len(dp, j));
        assert(val_at(dr, lo + j).len() == val_len(dr, lo + j));
    }
    assert(keys_sorted(dp)) by {
        assert forall|i: int, j: int|
            0 <= i < j < num_keys(dp) implies lex_lt(key_at(dp, i), key_at(dp, j)) by {
            assert(lex_lt(key_at(dr, lo + i), key_at(dr, lo + j)));
        }
    }
    assert(entries_fit(dp));
    assert(records_fit_page(dp)) by {
        assert forall|i: int|
            0 <= i < num_keys(dp) implies 14 + #[trigger] entry_span(dp, i)
            <= BTREE_PAGE_SIZE as int by {
            assert(key_len(dp, i) <= BTREE_MAX_KEY_SIZE as nat);
            assert(val_len(dp, i) <= BTREE_MAX_VAL_SIZE as nat);
        }
    }
    if h == 0 {
        assert(subtree_kvs_data(s, dp, h) =~= leaf_kvs(dr).subrange(lo, lo + len));
    } else {
        lemma_kids_wf_narrow(s, dr, h, 0, num_keys(dr) as int, lo + len);
        lemma_kids_wf_tail(s, dr, h, 0, lo + len, lo);
        lemma_kids_window_transfer(s, dr, dp, h, lo, 0, len);
    }
}

/// Two ranges of one consistent child window own disjoint page sets.
pub proof fn lemma_kids_ranges_disjoint(
    s: Map<u64, Seq<u8>>,
    d: Seq<u8>,
    h: nat,
    lo: int,
    mid: int,
    hi: int,
)
    requires
        kids_wf(s, d, h, lo, hi),
        h > 0,
        lo <= mid <= hi,
    ensures
        kids_ids(s, d, h, lo, mid).disjoint(kids_ids(s, d, h, mid, hi)),
{
    assert forall|p: u64| #[trigger] kids_ids(s, d, h, lo, mid).contains(p) implies !kids_ids(
        s,
        d,
        h,
        mid,
        hi,
    ).contains(p) by {
        lemma_kids_ids_member(s, d, h, lo, mid, p);
        lemma_kids_ids_member(s, d, h, mid, hi, p);
        let j1 = choose|j: int|
            lo <= j < mid && (#[trigger] subtree_ids(s, ptr_u64(d, j), (h - 1) as nat)).contains(p);
        if kids_ids(s, d, h, mid, hi).contains(p) {
            let j2 = choose|j: int|
                mid <= j < hi && (#[trigger] subtree_ids(s, ptr_u64(d, j), (h - 1) as nat)).contains(
                    p,
                );
            lemma_kids_disjoint_pair(s, d, h, lo, hi, j1, j2);
        }
    }
}

/// A freshly stored piece carrying a window of the rewritten child's
/// entries is a consistent subtree holding that window's content.
#[verifier::rlimit(100)]
pub proof fn lemma_one_piece(
    s: Map<u64, Seq<u8>>,
    dr: Seq<u8>,
    dp: Seq<u8>,
    hp: nat,
    pid: u64,
    lo: int,
    hi: int,
)
    requires
        subtree_wf_data(s, dr, hp),
        s.contains_key(pid),
        s[pid] == dp,
        node_wf(dp),
        node_size(dp) <= BTREE_PAGE_SIZE as int,
        node_kind(dp) == node_kind(dr),
        0 <= lo < hi <= num_keys(dr),
        num_keys(dp) == hi - lo,
        keys_of(dp) == keys_of(dr).subrange(lo, hi),
        vals_of(dp) == vals_of(dr).subrange(lo, hi),
        ptrs_of(dp) == ptrs_of(dr).subrange(lo, hi),
        !subtree_ids_data(s, dr, hp).contains(pid),
    ensures
        subtree_wf(s, pid, hp),
        subtree_kvs(s, pid, hp) == window_kvs(s, dr, hp, lo, hi),
        forall|p: u64|
            #[trigger] subtree_ids(s, pid, hp).contains(p) <==> (p == pid || (hp > 0 && kids_ids(
                s,
                dr,
                hp,
                lo,
                hi,
            ).contains(p))),
{
    lemma_piece_lift(s, dr, dp, hp, lo, hi - lo);
    if hp > 0 {
        assert forall|p: u64| #[trigger] subtree_ids_data(s, dp, hp).contains(p) implies kids_ids(
            s,
            dr,
            hp,
            lo,
            hi,
        ).contains(p) && subtree_ids_data(s, dr, hp).contains(p) by {
            lemma_kids_ids_member(s, dp, hp, 0, num_keys(dp) as int, p);
            lemma_kids_ids_member(s, dr, hp, lo, hi, p);
            assert(kids_ids(s, dr, hp, lo, hi).contains(p));
            lemma_kids_split(s, dr, hp, 0, lo, hi);
            lemma_kids_split(s, dr, hp, 0, hi, num_keys(dr) as int);
        }
        assert forall|p: u64| #[trigger] kids_ids(s, dr, hp, lo, hi).contains(p) implies
            subtree_ids_data(s, dp, hp).contains(p) by {
            lemma_kids_ids_member(s, dp, hp, 0, num_keys(dp) as int, p);
            lemma_kids_ids_member(s, dr, hp, lo, hi, p);
        }
        assert(!subtree_ids_data(s, dp, hp).contains(pid));
    }
    assert(subtree_wf(s, pid, hp));
    assert forall|p: u64|
        #[trigger] subtree_ids(s, pid, hp).contains(p) <==> (p == pid || (hp > 0 && kids_ids(
            s,
            dr,
            hp,
            lo,
            hi,
        ).contains(p))) by {
        if hp == 0 {
            assert(subtree_ids(s, pid, hp) =~= set![pid]);
        } else {
            assert(subtree_ids(s, pid, hp) =~= set![pid].union(subtree_ids_data(s, dp, hp)));
        }
    }
}

/// The pages reachable through the first `m` replacement pieces: the pieces
/// themselves and the pages of the windows of the rewritten child they
/// carry.
#[verifier::rlimit(100)]
pub proof fn lemma_pieces_ids(
    s: Map<u64, Seq<u8>>,
    dr: Seq<u8>,
    dn: Seq<u8>,
    h: nat,
    i: int,
    count: int,
    m: int,
    pids: Seq<u64>,
    pbytes: Seq<Seq<u8>>,
    cuts: Seq<int>,
    sep0: Seq<u8>,
)
    requires
        h >= 1,
        subtree_wf_data(s, dr, (h - 1) as nat),
        node_wf(dn),
        0 <= i,
        1 <= count,
        0 <= m <= count,
        i + count <= num_keys(dn),
        pids.len() == count,
        pbytes.len() == count,
        cuts.len() == count + 1,
        cuts[0] == 0,
        cuts[count as int] == num_keys(dr),
        forall|j: int| 0 <= j < count ==> #[trigger] cuts[j] < cuts[j + 1],
        forall|j: int|
            0 <= j < count ==> s.contains_key(#[trigger] pids[j]) && s[pids[j]] == pbytes[j],
        forall|j: int|
            0 <= j < count ==> node_wf(#[trigger] pbytes[j]) && node_size(pbytes[j])
                <= BTREE_PAGE_SIZE as int && node_kind(pbytes[j]) == node_kind(dr) && num_keys(
                pbytes[j],
            ) == cuts[j + 1] - cuts[j],
        forall|j: int|
            0 <= j < count ==> keys_of(#[trigger] pbytes[j]) == keys_of(dr).subrange(
                cuts[j],
                cuts[j + 1],
            ) && vals_of(pbytes[j]) == vals_of(dr).subrange(cuts[j], cuts[j + 1]) && ptrs_of(
                pbytes[j],
            ) == ptrs_of(dr).subrange(cuts[j], cuts[j + 1]),
        forall|j: int| 0 <= j < count ==> ptr_at(dn, i + j) == (#[trigger] pids[j]) as nat,
        key_at(dn, i) == sep0,
        forall|j: int| 1 <= j < count ==> key_at(dn, i + j) == key_at(dr, #[trigger] cuts[j]),
        kvs_lower_bounded(subtree_kvs_data(s, dr, (h - 1) as nat), sep0),
        i + count < num_keys(dn) ==> kvs_upper_bounded(
            subtree_kvs_data(s, dr, (h - 1) as nat),
            key_at(dn, i + count),
        ),
        forall|j1: int, j2: int|
            0 <= j1 < j2 < count ==> (#[trigger] pids[j1]) != (#[trigger] pids[j2]),
        forall|j: int|
            0 <= j < count ==> !subtree_ids_data(s, dr, (h - 1) as nat).contains(
                #[trigger] pids[j],
            ),
    ensures
        forall|p: u64|
            #[trigger] kids_ids(s, dn, h, i, i + m).contains(p) <==> ((exists|j: int|
                0 <= j < m && p == pids[j]) || (h - 1 > 0 && kids_ids(
                s,
                dr,
                (h - 1) as nat,
                0,
                cuts[m],
            ).contains(p))),
    decreases m,
{
    let hp = (h - 1) as nat;
    if m > 0 {
        let c = m - 1;
        lemma_pieces_ids(s, dr, dn, h, i, count, c, pids, pbytes, cuts, sep0);
        let dp = pbytes[c];
        let pid = pids[c];
        lemma_cuts_monotone(cuts, count, 0, c);
        lemma_cuts_monotone(cuts, count, c + 1, count as int);
        assert(ptr_u64(dn, i + c) == pid) by {
            assert(ptr_at(dn, i + c) == pid as nat);
        }
        lemma_one_piece(s, dr, dp, hp, pid, cuts[c], cuts[c + 1]);
        assert forall|p: u64|
            #[trigger] kids_ids(s, dn, h, i, i + m).contains(p) <==> ((exists|j: int|
                0 <= j < m && p == pids[j]) || (hp > 0 && kids_ids(s, dr, hp, 0, cuts[m]).contains(
                p,
            ))) by {
            lemma_kids_split(s, dn, h, i, i + c, i + m);
            lemma_kids_one(s, dn, h, i + c);
            if hp > 0 {
                lemma_kids_split(s, dr, hp, 0, cuts[c], cuts[m]);
            }
            if kids_ids(s, dn, h, i, i + m).contains(p) {
                if !kids_ids(s, dn, h, i, i + c).contains(p) {
                    assert(subtree_ids(s, pid, hp).contains(p));
                    if p != pid {
                        assert(hp > 0 && kids_ids(s, dr, hp, cuts[c], cuts[c + 1]).contains(p));
                    } else {
                        assert(p == pids[c]);
                    }
                }
            }
            if exists|j: int| 0 <= j < m && p == pids[j] {
                let j = choose|j: int| 0 <= j < m && p == pids[j];
                if j == c {
                    assert(subtree_ids(s, pid, hp).contains(p));
                    assert(kids_ids(s, dn, h, i, i + m).contains(p));
                } else {
                    assert(kids_ids(s, dn, h, i, i + c).contains(p));
                }
            }
            if hp > 0 && kids_ids(s, dr, hp, 0, cuts[m]).contains(p) {
                if kids_ids(s, dr, hp, cuts[c], cuts[m]).contains(p) {
                    assert(kids_ids(s, dr, hp, cuts[c], cuts[c + 1]).contains(p));
                    assert(subtree_ids(s, pid, hp).contains(p));
                    assert(kids_ids(s, dn, h, i, i + m).contains(p));
                } else {
                    assert(kids_ids(s, dr, hp, 0, cuts[c]).contains(p));
                    assert(kids_ids(s, dn, h, i, i + c).contains(p));
                }
            }
        }
    }
}

/// Bounds on a concatenation restrict to its middle part.
proof fn lemma_mid_bounds(total: KvList, w0: KvList, w1: KvList, w2: KvList, lo: Seq<u8>, hi: Seq<u8>)
    requires
        total == w0 + (w1 + w2),
    ensures
        kvs_lower_bounded(total, lo) ==> kvs_lower_bounded(w1, lo),
        kvs_upper_bounded(total, hi) ==> kvs_upper_bounded(w1, hi),
{
    if kvs_lower_bounded(total, lo) {
        assert forall|j: int| 0 <= j < w1.len() implies lex_le(lo, (#[trigger] w1[j]).0) by {
            assert(w1[j] == total[w0.len() + j]);
        }
    }
    if kvs_upper_bounded(total, hi) {
        assert forall|j: int| 0 <= j < w1.len() implies lex_lt((#[trigger] w1[j]).0, hi) by {
            assert(w1[j] == total[w0.len() + j]);
        }
    }
}

/// The pages of the pieces placed so far stay clear of the next piece's
/// pages.
#[verifier::rlimit(100)]
proof fn lemma_piece_step_disjoint(
    s: Map<u64, Seq<u8>>,
    dr: Seq<u8>,
    dn: Seq<u8>,
    h: nat,
    i: int,
    count: int,
    c: int,
    pids: Seq<u64>,
    pbytes: Seq<Seq<u8>>,
    cuts: Seq<int>,
    sep0: Seq<u8>,
)
    requires
        h >= 1,
        subtree_wf_data(s, dr, (h - 1) as nat),
        0 <= i,
        1 <= count,
        0 <= c < count,
        pids.len() == count,
        pbytes.len() == count,
        cuts.len() == count + 1,
        cuts[0] == 0,
        cuts[count as int] == num_keys(dr),
        forall|j: int| 0 <= j < count ==> #[trigger] cuts[j] < cuts[j + 1],
        forall|j1: int, j2: int|
            0 <= j1 < j2 < count ==> (#[trigger] pids[j1]) != (#[trigger] pids[j2]),
        forall|j: int|
            0 <= j < count ==> !subtree_ids_data(s, dr, (h - 1) as nat).contains(
                #[trigger] pids[j],
            ),
        forall|p: u64|
            #[trigger] kids_ids(s, dn, h, i, i + c).contains(p) ==> ((exists|j: int|
                0 <= j < c && p == pids[j]) || (h - 1 > 0 && kids_ids(
                s,
                dr,
                (h - 1) as nat,
                0,
                cuts[c],
            ).contains(p))),
        forall|p: u64|
            #[trigger] subtree_ids(s, pids[c], (h - 1) as nat).contains(p) ==> (p == pids[c] || (h
                - 1 > 0 && kids_ids(s, dr, (h - 1) as nat, cuts[c], cuts[c + 1]).contains(p))),
    ensures
        kids_ids(s, dn, h, i, i + c).disjoint(subtree_ids(s, pids[c], (h - 1) as nat)),
{
    let hp = (h - 1) as nat;
    let pid = pids[c];
    lemma_cuts_monotone(cuts, count, 0, c);
    lemma_cuts_monotone(cuts, count, c + 1, count as int);
    if hp > 0 {
        lemma_kids_split(s, dr, hp, 0, cuts[c], cuts[c + 1]);
        lemma_kids_split(s, dr, hp, 0, cuts[c + 1], num_keys(dr) as int);
        // both ranges sit inside the rewritten child's reachable pages
        assert(forall|p: u64|
            kids_ids(s, dr, hp, 0, cuts[c]).contains(p) ==> #[trigger] subtree_ids_data(
                s,
                dr,
                hp,
            ).contains(p));
        assert(forall|p: u64|
            kids_ids(s, dr, hp, cuts[c], cuts[c + 1]).contains(p) ==> #[trigger] subtree_ids_data(
                s,
                dr,
                hp,
            ).contains(p));
        lemma_kids_wf_narrow(s, dr, hp, 0, num_keys(dr) as int, cuts[c + 1]);
        lemma_kids_ranges_disjoint(s, dr, hp, 0, cuts[c], cuts[c + 1]);
    }
    assert forall|p: u64| #[trigger] kids_ids(s, dn, h, i, i + c).contains(p) implies
        !subtree_ids(s, pid, hp).contains(p) by {
        if subtree_ids(s, pid, hp).contains(p) {
            if p == pid {
                assert(exists|j: int| 0 <= j < c && p == pids[j] || (hp > 0 && kids_ids(
                    s,
                    dr,
                    hp,
                    0,
                    cuts[c],
                ).contains(p)));
                if exists|j: int| 0 <= j < c && p == pids[j] {
                    let j = choose|j: int| 0 <= j < c && p == pids[j];
                    assert(pids[j] != pids[c]);
                } else {
                    assert(hp > 0 && kids_ids(s, dr, hp, 0, cuts[c]).contains(p));
                    assert(subtree_ids_data(s, dr, hp).contains(pid));
                }
            } else {
                assert(hp > 0 && kids_ids(s, dr, hp, cuts[c], cuts[c + 1]).contains(p));
                if exists|j: int| 0 <= j < c && p == pids[j] {
                    let j = choose|j: int| 0 <= j < c && p == pids[j];
                    assert(subtree_ids_data(s, dr, hp).contains(pids[j]));
                    assert(false);
                } else {
                    assert(kids_ids(s, dr, hp, 0, cuts[c]).contains(p));
                    assert(false);
                }
            }
        }
    }
}

/// The separators around piece `c` in the parent under construction fence
/// the piece's pairs.
#[verifier::rlimit(100)]
proof fn lemma_piece_step_fences(
    s: Map<u64, Seq<u8>>,
    dr: Seq<u8>,
    dn: Seq<u8>,
    h: nat,
    i: int,
    count: int,
    c: int,
    pids: Seq<u64>,
    cuts: Seq<int>,
    sep0: Seq<u8>,
)
    requires
        h >= 1,
        subtree_wf_data(s, dr, (h - 1) as nat),
        0 <= i,
        1 <= count,
        0 <= c < count,
        i + count <= num_keys(dn),
        pids.len() == count,
        cuts.len() == count + 1,
        cuts[0] == 0,
        cuts[count as int] == num_keys(dr),
        forall|j: int| 0 <= j < count ==> #[trigger] cuts[j] < cuts[j + 1],
        key_at(dn, i) == sep0,
        forall|j: int| 1 <= j < count ==> key_at(dn, i + j) == key_at(dr, #[trigger] cuts[j]),
        kvs_lower_bounded(subtree_kvs_data(s, dr, (h - 1) as nat), sep0),
        i + count < num_keys(dn) ==> kvs_upper_bounded(
            subtree_kvs_data(s, dr, (h - 1) as nat),
            key_at(dn, i + count),
        ),
        subtree_kvs(s, pids[c], (h - 1) as nat) == window_kvs(
            s,
            dr,
            (h - 1) as nat,
            cuts[c],
            cuts[c + 1],
        ),
    ensures
        kvs_lower_bounded(subtree_kvs(s, pids[c], (h - 1) as nat), key_at(dn, i + c)),
        i + c + 1 < num_keys(dn) ==> kvs_upper_bounded(
            subtree_kvs(s, pids[c], (h - 1) as nat),
            key_at(dn, i + c + 1),
        ),
{
    let hp = (h - 1) as nat;
    let rkvs = subtree_kvs_data(s, dr, hp);
    lemma_cuts_monotone(cuts, count, 0, c);
    lemma_cuts_monotone(cuts, count, c + 1, count as int);
    lemma_window_total(s, dr, hp);
    lemma_window_split(s, dr, hp, 0, cuts[c], num_keys(dr) as int);
    lemma_window_split(s, dr, hp, cuts[c], cuts[c + 1], num_keys(dr) as int);
    let w0 = window_kvs(s, dr, hp, 0, cuts[c]);
    let w1 = window_kvs(s, dr, hp, cuts[c], cuts[c + 1]);
    let w2 = window_kvs(s, dr, hp, cuts[c + 1], num_keys(dr) as int);
    assert(rkvs == w0 + (w1 + w2));
    lemma_mid_bounds(rkvs, w0, w1, w2, sep0, sep0);
    if c == 0 {
    } else {
        lemma_window_props(s, dr, hp, cuts[c], cuts[c + 1]);
        assert(key_at(dn, i + c) == key_at(dr, cuts[c]));
    }
    if i + c + 1 < num_keys(dn) {
        if c + 1 < count {
            lemma_window_props(s, dr, hp, cuts[c], cuts[c + 1]);
            assert(cuts[c + 1] < num_keys(dr)) by {
                assert(cuts[c + 1] < cuts[c + 2]);
                lemma_cuts_monotone(cuts, count, c + 2, count as int);
            }
            assert(key_at(dn, i + c + 1) == key_at(dr, cuts[c + 1]));
        } else {
            assert(i + count < num_keys(dn));
            lemma_mid_bounds(rkvs, w0, w1, w2, sep0, key_at(dn, i + c + 1));
        }
    }
}

/// Assembles the replacement children of one routed child: `m` freshly
/// written pieces, standing side by side in the parent under construction at
/// positions `i ..`, carry between them exactly the rewritten child's
/// content.
#[verifier::rlimit(100)]
pub proof fn lemma_pieces_assemble(
    s: Map<u64, Seq<u8>>,
    dr: Seq<u8>,
    dn: Seq<u8>,
    h: nat,
    i: int,
    count: int,
    m: int,
    pids: Seq<u64>,
    pbytes: Seq<Seq<u8>>,
    cuts: Seq<int>,
    sep0: Seq<u8>,
)
    requires
        h >= 1,
        subtree_wf_data(s, dr, (h - 1) as nat),
        node_wf(dn),
        0 <= i,
        1 <= count,
        0 <= m <= count,
        i + count <= num_keys(dn),
        pids.len() == count,
        pbytes.len() == count,
        cuts.len() == count + 1,
        cuts[0] == 0,
        cuts[count as int] == num_keys(dr),
        forall|j: int| 0 <= j < count ==> #[trigger] cuts[j] < cuts[j + 1],
        forall|j: int|
            0 <= j < count ==> s.contains_key(#[trigger] pids[j]) && s[pids[j]] == pbytes[j],
        forall|j: int|
            0 <= j < count ==> node_wf(#[trigger] pbytes[j]) && node_size(pbytes[j])
                <= BTREE_PAGE_SIZE as int && node_kind(pbytes[j]) == node_kind(dr) && num_keys(
                pbytes[j],
            ) == cuts[j + 1] - cuts[j],
        forall|j: int|
            0 <= j < count ==> keys_of(#[trigger] pbytes[j]) == keys_of(dr).subrange(
                cuts[j],
                cuts[j + 1],
            ) && vals_of(pbytes[j]) == vals_of(dr).subrange(cuts[j], cuts[j + 1]) && ptrs_of(
                pbytes[j],
            ) == ptrs_of(dr).subrange(cuts[j], cuts[j + 1]),
        forall|j: int| 0 <= j < count ==> ptr_at(dn, i + j) == (#[trigger] pids[j]) as nat,
        key_at(dn, i) == sep0,
        sep0 == key_at(dr, 0),
        forall|j: int| 1 <= j < count ==> key_at(dn, i + j) == key_at(dr, #[trigger] cuts[j]),
        kvs_lower_bounded(subtree_kvs_data(s, dr, (h - 1) as nat), sep0),
        i + count < num_keys(dn) ==> kvs_upper_bounded(
            subtree_kvs_data(s, dr, (h - 1) as nat),
            key_at(dn, i + count),
        ),
        forall|j1: int, j2: int|
            0 <= j1 < j2 < count ==> (#[trigger] pids[j1]) != (#[trigger] pids[j2]),
        forall|j: int|
            0 <= j < count ==> !subtree_ids_data(s, dr, (h - 1) as nat).contains(
                #[trigger] pids[j],
            ),
    ensures
        kids_wf(s, dn, h, i, i + m),
        kids_kvs(s, dn, h, i, i + m) == window_kvs(s, dr, (h - 1) as nat, 0, cuts[m]),
    decreases m,
{
    let hp = (h - 1) as nat;
    if m == 0 {
        assert(kids_kvs(s, dn, h, i, i) =~= window_kvs(s, dr, hp, 0, 0)) by {
            if hp == 0 {
                assert(leaf_kvs(dr).subrange(0, 0) =~= Seq::<(Seq<u8>, Seq<u8>)>::empty());
            }
        }
    } else {
        let c = m - 1;
        lemma_pieces_assemble(s, dr, dn, h, i, count, c, pids, pbytes, cuts, sep0);
        lemma_pieces_ids(s, dr, dn, h, i, count, c, pids, pbytes, cuts, sep0);
        let dp = pbytes[c];
        let pid = pids[c];
        lemma_cuts_monotone(cuts, count, 0, c);
        lemma_cuts_monotone(cuts, count, c + 1, count as int);
        assert(ptr_u64(dn, i + c) == pid) by {
            assert(ptr_at(dn, i + c) == pid as nat);
        }
        lemma_one_piece(s, dr, dp, hp, pid, cuts[c], cuts[c + 1]);
        lemma_piece_step_fences(s, dr, dn, h, i, count, c, pids, cuts, sep0);
        lemma_piece_step_disjoint(s, dr, dn, h, i, count, c, pids, pbytes, cuts, sep0);
        // the entry's separator key is the piece's smallest key
        lemma_window_min(s, dr, hp, cuts[c], cuts[c + 1]);
        assert(subtree_kvs(s, pid, hp)[0].0 == key_at(dn, i + c)) by {
            if c == 0 {
                assert(key_at(dn, i + c) == key_at(dr, 0));
            } else {
                assert(key_at(dn, i + c) == key_at(dr, cuts[c]));
            }
        }
        assert(kids_wf(s, dn, h, i, i + m));
        assert(kids_kvs(s, dn, h, i, i + m) == window_kvs(s, dr, hp, 0, cuts[m])) by {
            lemma_window_split(s, dr, hp, 0, cuts[c], cuts[m]);
            assert(kids_kvs(s, dn, h, i, i + m) == kids_kvs(s, dn, h, i, i + c) + subtree_kvs(
                s,
                pid,
                hp,
            ));
        }
    }
}

/// The cut positions grow along the pieces.
proof fn lemma_cuts_monotone(cuts: Seq<int>, count: int, a: int, b: int)
    requires
        cuts.len() == count + 1,
        forall|j: int| 0 <= j < count ==> #[trigger] cuts[j] < cuts[j + 1],
        0 <= a <= b <= count,
    ensures
        cuts[a] <= cuts[b],
    decreases b - a,
{
    if a < b {
        lemma_cuts_monotone(cuts, count, a, b - 1);
        assert(cuts[b - 1] < cuts[b]);
    }
}

/// Keys that grow from each record to the next are sorted overall.
pub proof fn lemma_adjacent_sorted(d: Seq<u8>)
    requires
        forall|j: int|
            0 <= j < num_keys(d) - 1 ==> lex_lt(#[trigger] key_at(d, j), key_at(d, j + 1)),
    ensures
        keys_sorted(d),
{
    assert forall|i: int, j: int|
        0 <= i < j < num_keys(d) implies lex_lt(key_at(d, i), key_at(d, j)) by {
        lemma_sorted_gap(d, i, j);
    }
}

/// Chained strictness across a gap.
proof fn lemma_sorted_gap(d: Seq<u8>, i: int, j: int)
    requires
        forall|m: int|
            0 <= m < num_keys(d) - 1 ==> lex_lt(#[trigger] key_at(d, m), key_at(d, m + 1)),
        0 <= i < j < num_keys(d),
    ensures
        lex_lt(key_at(d, i), key_at(d, j)),
    decreases j - i,
{
    if i + 1 == j {
        assert(lex_lt(key_at(d, i), key_at(d, i + 1)));
    } else {
        lemma_sorted_gap(d, i, j - 1);
        assert(lex_lt(key_at(d, j - 1), key_at(d, j)));
        lemma_lex_lt_trans(key_at(d, i), key_at(d, j - 1), key_at(d, j));
    }
}

/// Every page but `freed` survives from `sa` to `sf` unchanged.
pub open spec fn preserved_except(sa: Map<u64, Seq<u8>>, sf: Map<u64, Seq<u8>>, freed: u64) -> bool {
    forall|p: u64|
        #![trigger sa.contains_key(p)]
        sa.contains_key(p) && p != freed ==> sf.contains_key(p) && sf[p] == sa[p]
}

/// Everything the internal-node rebuild establishes along the way: the old
/// node `d0` and its surviving child windows in the entry store `sa`, the
/// rewritten child `dr` with its `count` pieces written at fresh pages
/// `pids` in the final store `sf`, and the new node bytes `dn` holding the
/// copied entries around one parent entry per piece.
pub open spec fn rebuild_ctx(
    sa: Map<u64, Seq<u8>>,
    sf: Map<u64, Seq<u8>>,
    d0: Seq<u8>,
    dn: Seq<u8>,
    dr: Seq<u8>,
    h: nat,
    i: int,
    count: int,
    pids: Seq<u64>,
    pbytes: Seq<Seq<u8>>,
    cuts: Seq<int>,
    sep0: Seq<u8>,
    child_id: u64,
) -> bool {
    let hp = (h - 1) as nat;
    let n = num_keys(d0) as int;
    let ntot = n + count - 1;
    &&& h >= 1
    &&& node_ok(d0, h)
    &&& node_size(d0) <= BTREE_PAGE_SIZE as int
    &&& 0 <= i < n
    &&& kids_wf(sa, d0, h, 0, i)
    &&& kids_wf(sa, d0, h, i + 1, n)
    &&& kids_ids(sa, d0, h, 0, i).disjoint(kids_ids(sa, d0, h, i + 1, n))
    &&& subtree_wf_data(sa, dr, hp)
    &&& 1 <= count <= 3
    &&& pids.len() == count
    &&& pbytes.len() == count
    &&& cuts.len() == count + 1
    &&& cuts[0] == 0
    &&& cuts[count] == num_keys(dr)
    &&& (forall|j: int| 0 <= j < count ==> #[trigger] cuts[j] < cuts[j + 1])
    &&& (forall|j: int|
        0 <= j < count ==> node_wf(#[trigger] pbytes[j]) && node_size(pbytes[j])
            <= BTREE_PAGE_SIZE as int && node_kind(pbytes[j]) == node_kind(dr) && num_keys(
            pbytes[j],
        ) == cuts[j + 1] - cuts[j])
    &&& (forall|j: int|
        0 <= j < count ==> keys_of(#[trigger] pbytes[j]) == keys_of(dr).subrange(
            cuts[j],
            cuts[j + 1],
        ) && vals_of(pbytes[j]) == vals_of(dr).subrange(cuts[j], cuts[j + 1]) && ptrs_of(
            pbytes[j],
        ) == ptrs_of(dr).subrange(cuts[j], cuts[j + 1]))
    &&& sep0.len() <= BTREE_MAX_KEY_SIZE
    &&& sep0 == key_at(dr, 0)
    &&& (1 <= i ==> lex_le(key_at(d0, i), sep0))
    &&& (i > 0 ==> lex_lt(key_at(d0, i - 1), sep0))
    &&& (i + 1 < n ==> kvs_upper_bounded(subtree_kvs_data(sa, dr, hp), key_at(d0, i + 1)))
    &&& sa.contains_key(child_id)
    &&& !kids_ids(sa, d0, h, 0, i).contains(child_id)
    &&& !kids_ids(sa, d0, h, i + 1, n).contains(child_id)
    &&& !subtree_ids_data(sa, dr, hp).contains(child_id)
    &&& (forall|p: u64|
        #[trigger] subtree_ids_data(sa, dr, hp).contains(p) ==> !kids_ids(
            sa,
            d0,
            h,
            0,
            i,
        ).contains(p) && !kids_ids(sa, d0, h, i + 1, n).contains(p))
    &&& node_wf(dn)
    &&& num_keys(dn) == ntot
    &&& node_kind(dn) == BNODE_INTERNAL as nat
    &&& node_size(dn) <= 2 * BTREE_PAGE_SIZE as int - 4
    &&& (forall|j: int|
        0 <= j < i ==> #[trigger] key_at(dn, j) == key_at(d0, j) && val_at(dn, j) == val_at(d0, j)
            && ptr_at(dn, j) == ptr_at(d0, j))
    &&& key_at(dn, i) == sep0
    &&& (forall|j: int|
        i <= j < i + count ==> #[trigger] ptr_at(dn, j) == pids[j - i] as nat && val_at(dn, j)
            == Seq::<u8>::empty())
    &&& (forall|j: int|
        i + 1 <= j < i + count ==> #[trigger] key_at(dn, j) == key_at(pbytes[j - i], 0))
    &&& (forall|j: int|
        i + count <= j < ntot ==> #[trigger] key_at(dn, j) == key_at(d0, j - count + 1) && val_at(
            dn,
            j,
        ) == val_at(d0, j - count + 1) && ptr_at(dn, j) == ptr_at(d0, j - count + 1))
    &&& preserved_except(sa, sf, child_id)
    &&& !sf.contains_key(child_id)
    &&& (forall|j: int|
        0 <= j < count ==> sf.contains_key(#[trigger] pids[j]) && sf[pids[j]] == pbytes[j]
            && !sa.contains_key(pids[j]))
    &&& (forall|j1: int, j2: int|
        0 <= j1 < j2 < count ==> (#[trigger] pids[j1]) != (#[trigger] pids[j2]))
}

/// After the rebuild the rewritten child and the copied child windows are
/// as consistent in the final store as they were before it.
#[verifier::rlimit(100)]
proof fn lemma_rebuild_stores(
    sa: Map<u64, Seq<u8>>,
    sf: Map<u64, Seq<u8>>,
    d0: Seq<u8>,
    dn: Seq<u8>,
    dr: Seq<u8>,
    h: nat,
    i: int,
    count: int,
    pids: Seq<u64>,
    pbytes: Seq<Seq<u8>>,
    cuts: Seq<int>,
    sep0: Seq<u8>,
    child_id: u64,
)
    requires
        rebuild_ctx(sa, sf, d0, dn, dr, h, i, count, pids, pbytes, cuts, sep0, child_id),
    ensures
        subtree_wf_data(sf, dr, (h - 1) as nat),
        subtree_kvs_data(sf, dr, (h - 1) as nat) == subtree_kvs_data(sa, dr, (h - 1) as nat),
        subtree_ids_data(sf, dr, (h - 1) as nat) == subtree_ids_data(sa, dr, (h - 1) as nat),
        kids_wf(sf, d0, h, 0, i),
        kids_kvs(sf, d0, h, 0, i) == kids_kvs(sa, d0, h, 0, i),
        kids_ids(sf, d0, h, 0, i) == kids_ids(sa, d0, h, 0, i),
        kids_wf(sf, d0, h, i + 1, num_keys(d0) as int),
        kids_kvs(sf, d0, h, i + 1, num_keys(d0) as int) == kids_kvs(
            sa,
            d0,
            h,
            i + 1,
            num_keys(d0) as int,
        ),
        kids_ids(sf, d0, h, i + 1, num_keys(d0) as int) == kids_ids(
            sa,
            d0,
            h,
            i + 1,
            num_keys(d0) as int,
        ),
{
    let hp = (h - 1) as nat;
    let n = num_keys(d0) as int;
    if hp > 0 {
        let nr = num_keys(dr) as int;
        lemma_kids_ids_in_dom(sa, dr, hp, 0, nr);
        assert forall|p: u64| #[trigger] kids_ids(sa, dr, hp, 0, nr).contains(p) implies
            sf.contains_key(p) && sf[p] == sa[p] by {
            assert(subtree_ids_data(sa, dr, hp).contains(p));
            assert(sa.contains_key(p));
            assert(p != child_id);
        }
        lemma_kids_frame(sa, sf, dr, hp, 0, nr);
    } else {
        assert(subtree_ids_data(sf, dr, hp) =~= subtree_ids_data(sa, dr, hp));
    }
    lemma_kids_ids_in_dom(sa, d0, h, 0, i);
    assert forall|p: u64| #[trigger] kids_ids(sa, d0, h, 0, i).contains(p) implies sf.contains_key(
        p,
    ) && sf[p] == sa[p] by {
        assert(sa.contains_key(p));
        assert(p != child_id);
    }
    lemma_kids_frame(sa, sf, d0, h, 0, i);
    lemma_kids_ids_in_dom(sa, d0, h, i + 1, n);
    assert forall|p: u64| #[trigger] kids_ids(sa, d0, h, i + 1, n).contains(p) implies
        sf.contains_key(p) && sf[p] == sa[p] by {
        assert(sa.contains_key(p));
        assert(p != child_id);
    }
    lemma_kids_frame(sa, sf, d0, h, i + 1, n);
}

/// The new node's children — copied windows around the pieces — form one
/// consistent window holding the spliced content.
#[verifier::rlimit(100)]
proof fn lemma_rebuild_assembly(
    sa: Map<u64, Seq<u8>>,
    sf: Map<u64, Seq<u8>>,
    d0: Seq<u8>,
    dn: Seq<u8>,
    dr: Seq<u8>,
    h: nat,
    i: int,
    count: int,
    pids: Seq<u64>,
    pbytes: Seq<Seq<u8>>,
    cuts: Seq<int>,
    sep0: Seq<u8>,
    child_id: u64,
)
    requires
        rebuild_ctx(sa, sf, d0, dn, dr, h, i, count, pids, pbytes, cuts, sep0, child_id),
    ensures
        kids_wf(sf, dn, h, 0, num_keys(dn) as int),
        kids_kvs(sf, dn, h, 0, num_keys(dn) as int) == kids_kvs(sa, d0, h, 0, i) + (
        subtree_kvs_data(sa, dr, (h - 1) as nat) + kids_kvs(
            sa,
            d0,
            h,
            i + 1,
            num_keys(d0) as int,
        )),
        forall|p: u64|
            #[trigger] kids_ids(sf, dn, h, 0, num_keys(dn) as int).contains(p) ==> kids_ids(
                sa,
                d0,
                h,
                0,
                i,
            ).contains(p) || kids_ids(sa, d0, h, i + 1, num_keys(d0) as int).contains(p)
                || subtree_ids_data(sa, dr, (h - 1) as nat).contains(p) || !sa.contains_key(p),
{
    let hp = (h - 1) as nat;
    let n = num_keys(d0) as int;
    let ntot = n + count - 1;
    let nr = num_keys(dr) as int;
    lemma_rebuild_stores(sa, sf, d0, dn, dr, h, i, count, pids, pbytes, cuts, sep0, child_id);
    // derive the piece-boundary separator keys in terms of the child
    assert forall|j: int| 1 <= j < count implies key_at(dn, i + j) == key_at(
        dr,
        #[trigger] cuts[j],
    ) by {
        assert(key_at(dn, i + j) == key_at(pbytes[j], 0));
        assert(keys_of(pbytes[j])[0] == keys_of(dr).subrange(cuts[j], cuts[j + 1])[0]);
        lemma_cuts_monotone(cuts, count, 0, j);
        lemma_cuts_monotone(cuts, count, j + 1, count);
    }
    // the copied windows
    assert forall|j: int| 0 <= j < i implies #[trigger] ptr_at(dn, j) == ptr_at(d0, j - 0 + 0) by {
        assert(key_at(dn, j) == key_at(d0, j));
    }
    assert forall|j: int| 0 <= j < i implies #[trigger] key_at(dn, j) == key_at(d0, j - 0 + 0) by {
        assert(key_at(dn, j) == key_at(d0, j));
    }
    lemma_kids_window_transfer(sf, d0, dn, h, 0, 0, i);
    assert forall|j: int|
        i + count <= j < i + count + (n - i - 1) implies #[trigger] ptr_at(dn, j) == ptr_at(
        d0,
        j - (i + count) + (i + 1),
    ) by {
        assert(key_at(dn, j) == key_at(d0, j - count + 1));
        assert(ptr_at(dn, j) == ptr_at(d0, j - count + 1));
    }
    assert forall|j: int|
        i + count <= j < i + count + (n - i - 1) implies #[trigger] key_at(dn, j) == key_at(
        d0,
        j - (i + count) + (i + 1),
    ) by {
        assert(key_at(dn, j) == key_at(d0, j - count + 1));
    }
    lemma_kids_window_transfer(sf, d0, dn, h, i + 1, i + count, n - i - 1);
    // the pieces
    assert forall|j: int| 0 <= j < count implies !subtree_ids_data(sf, dr, hp).contains(
        #[trigger] pids[j],
    ) by {
        if hp > 0 {
            lemma_kids_ids_in_dom(sa, dr, hp, 0, nr);
            if subtree_ids_data(sa, dr, hp).contains(pids[j]) {
                assert(sa.contains_key(pids[j]));
            }
        }
    }
    assert(kvs_lower_bounded(subtree_kvs_data(sf, dr, hp), sep0)) by {
        lemma_subtree_kvs_props(sa, dr, hp);
    }
    if i + count < ntot {
        assert(key_at(dn, i + count) == key_at(d0, i + 1));
        assert(kvs_upper_bounded(subtree_kvs_data(sf, dr, hp), key_at(dn, i + count)));
    }
    assert forall|j: int| 0 <= j < count implies ptr_at(dn, i + j) == (#[trigger] pids[j]) as nat by {
        assert(ptr_at(dn, i + j) == pids[(i + j) - i] as nat);
    }
    lemma_pieces_assemble(sf, dr, dn, h, i, count, count, pids, pbytes, cuts, sep0);
    lemma_pieces_ids(sf, dr, dn, h, i, count, count, pids, pbytes, cuts, sep0);
    lemma_window_total(sf, dr, hp);
    // first join: copied prefix with the pieces
    lemma_kids_ids_in_dom(sa, d0, h, 0, i);
    lemma_kids_ids_in_dom(sa, d0, h, i + 1, n);
    assert forall|p: u64| #[trigger] kids_ids(sf, dn, h, 0, i).contains(p) implies !kids_ids(
        sf,
        dn,
        h,
        i,
        i + count,
    ).contains(p) by {
        assert(kids_ids(sa, d0, h, 0, i).contains(p));
        assert(sa.contains_key(p));
        if kids_ids(sf, dn, h, i, i + count).contains(p) {
            if exists|j: int| 0 <= j < count && p == pids[j] {
                let j = choose|j: int| 0 <= j < count && p == pids[j];
                assert(!sa.contains_key(pids[j]));
            } else {
                assert(hp > 0 && kids_ids(sf, dr, hp, 0, cuts[count]).contains(p));
                assert(subtree_ids_data(sa, dr, hp).contains(p));
            }
        }
    }
    lemma_kids_wf_join(sf, dn, h, 0, i, i + count);
    // second join: the suffix window
    lemma_kids_split(sf, dn, h, 0, i, i + count);
    assert forall|p: u64| #[trigger] kids_ids(sf, dn, h, 0, i + count).contains(p) implies
        !kids_ids(sf, dn, h, i + count, ntot).contains(p) by {
        assert(kids_ids(sf, dn, h, i + count, ntot) == kids_ids(sa, d0, h, i + 1, n));
        if kids_ids(sa, d0, h, i + 1, n).contains(p) {
            assert(sa.contains_key(p));
            if kids_ids(sf, dn, h, 0, i).contains(p) {
                assert(kids_ids(sa, d0, h, 0, i).contains(p));
                assert(false);
            } else {
                assert(kids_ids(sf, dn, h, i, i + count).contains(p));
                if exists|j: int| 0 <= j < count && p == pids[j] {
                    let j = choose|j: int| 0 <= j < count && p == pids[j];
                    assert(!sa.contains_key(pids[j]));
                } else {
                    assert(hp > 0 && kids_ids(sf, dr, hp, 0, cuts[count]).contains(p));
                    assert(subtree_ids_data(sa, dr, hp).contains(p));
                }
            }
        }
    }
    lemma_kids_wf_join(sf, dn, h, 0, i + count, ntot);
    // the content, spliced
    lemma_kids_split(sf, dn, h, 0, i + count, ntot);
    assert(kids_kvs(sf, dn, h, 0, ntot) == kids_kvs(sa, d0, h, 0, i) + (subtree_kvs_data(
        sa,
        dr,
        hp,
    ) + kids_kvs(sa, d0, h, i + 1, n))) by {
        assert(kids_kvs(sf, dn, h, i, i + count) == subtree_kvs_data(sf, dr, hp));
        assert(kids_kvs(sf, dn, h, 0, i + count) == kids_kvs(sf, dn, h, 0, i) + kids_kvs(
            sf,
            dn,
            h,
            i,
            i + count,
        ));
        assert(kids_kvs(sf, dn, h, 0, ntot) == kids_kvs(sf, dn, h, 0, i + count) + kids_kvs(
            sf,
            dn,
            h,
            i + count,
            ntot,
        ));
        assert((kids_kvs(sa, d0, h, 0, i) + subtree_kvs_data(sa, dr, hp)) + kids_kvs(
            sa,
            d0,
            h,
            i + 1,
            n,
        ) =~= kids_kvs(sa, d0, h, 0, i) + (subtree_kvs_data(sa, dr, hp) + kids_kvs(
            sa,
            d0,
            h,
            i + 1,
            n,
        )));
    }
    // where the pages come from
    assert forall|p: u64| #[trigger] kids_ids(sf, dn, h, 0, ntot).contains(p) implies kids_ids(
        sa,
        d0,
        h,
        0,
        i,
    ).contains(p) || kids_ids(sa, d0, h, i + 1, n).contains(p) || subtree_ids_data(
        sa,
        dr,
        hp,
    ).contains(p) || !sa.contains_key(p) by {
        lemma_kids_split(sf, dn, h, 0, i + count, ntot);
        lemma_kids_split(sf, dn, h, 0, i, i + count);
        if kids_ids(sf, dn, h, i, i + count).contains(p) {
            if exists|j: int| 0 <= j < count && p == pids[j] {
                let j = choose|j: int| 0 <= j < count && p == pids[j];
                assert(!sa.contains_key(pids[j]));
            } else {
                assert(hp > 0 && kids_ids(sf, dr, hp, 0, cuts[count]).contains(p));
                assert(subtree_ids_data(sa, dr, hp).contains(p));
            }
        }
    }
}

/// One replacement piece's pairs are fenced between its separator key in
/// the rebuilt node and the following separator key.
#[verifier::rlimit(100)]
#[verifier::spinoff_prover]
proof fn lemma_rebuild_fence_piece(
    sa: Map<u64, Seq<u8>>,
    sf: Map<u64, Seq<u8>>,
    d0: Seq<u8>,
    dn: Seq<u8>,
    dr: Seq<u8>,
    h: nat,
    i: int,
    count: int,
    c: int,
    pids: Seq<u64>,
    pbytes: Seq<Seq<u8>>,
    cuts: Seq<int>,
    sep0: Seq<u8>,
    child_id: u64,
)
    requires
        rebuild_ctx(sa, sf, d0, dn, dr, h, i, count, pids, pbytes, cuts, sep0, child_id),
        0 <= c < count,
    ensures
        kvs_lower_bounded(subtree_kvs(sf, pids[c], (h - 1) as nat), key_at(dn, i + c)),
        i + c + 1 < num_keys(d0) + count - 1 ==> kvs_upper_bounded(
            subtree_kvs(sf, pids[c], (h - 1) as nat),
            key_at(dn, i + c + 1),
        ),
        subtree_kvs(sf, pids[c], (h - 1) as nat).len() >= 1,
{
    let hp = (h - 1) as nat;
    let n = num_keys(d0) as int;
    let ntot = n + count - 1;
    let nr = num_keys(dr) as int;
    lemma_rebuild_stores(sa, sf, d0, dn, dr, h, i, count, pids, pbytes, cuts, sep0, child_id);
    lemma_subtree_kvs_props(sa, dr, hp);
    assert(kvs_lower_bounded(subtree_kvs_data(sf, dr, hp), sep0));
    if i + count < ntot {
        assert(key_at(dn, i + count) == key_at(d0, i + 1));
        assert(kvs_upper_bounded(subtree_kvs_data(sf, dr, hp), key_at(dn, i + count)));
    }
    assert(!subtree_ids_data(sf, dr, hp).contains(pids[c])) by {
        if hp > 0 {
            lemma_kids_ids_in_dom(sa, dr, hp, 0, nr);
            if subtree_ids_data(sa, dr, hp).contains(pids[c]) {
                assert(sa.contains_key(pids[c]));
            }
        }
    }
    assert forall|j: int| 1 <= j < count implies key_at(dn, i + j) == key_at(
        dr,
        #[trigger] cuts[j],
    ) by {
        assert(key_at(dn, i + j) == key_at(pbytes[j], 0));
        assert(keys_of(pbytes[j])[0] == keys_of(dr).subrange(cuts[j], cuts[j + 1])[0]);
        lemma_cuts_monotone(cuts, count, 0, j);
        lemma_cuts_monotone(cuts, count, j + 1, count);
    }
    lemma_cuts_monotone(cuts, count, 0, c);
    lemma_cuts_monotone(cuts, count, c + 1, count);
    assert(ptr_at(dn, i + c) == pids[(i + c) - i] as nat);
    lemma_one_piece(sf, dr, pbytes[c], hp, pids[c], cuts[c], cuts[c + 1]);
    lemma_piece_step_fences(sf, dr, dn, h, i, count, c, pids, cuts, sep0);
    lemma_window_props(sf, dr, hp, cuts[c], cuts[c + 1]);
}

/// Each replacement piece's pairs are fenced between its separator key in
/// the rebuilt node and the following separator key.
#[verifier::rlimit(100)]
#[verifier::spinoff_prover]
proof fn lemma_rebuild_fences(
    sa: Map<u64, Seq<u8>>,
    sf: Map<u64, Seq<u8>>,
    d0: Seq<u8>,
    dn: Seq<u8>,
    dr: Seq<u8>,
    h: nat,
    i: int,
    count: int,
    pids: Seq<u64>,
    pbytes: Seq<Seq<u8>>,
    cuts: Seq<int>,
    sep0: Seq<u8>,
    child_id: u64,
)
    requires
        rebuild_ctx(sa, sf, d0, dn, dr, h, i, count, pids, pbytes, cuts, sep0, child_id),
    ensures
        forall|c: int|
            0 <= c < count ==> kvs_lower_bounded(
                subtree_kvs(sf, #[trigger] pids[c], (h - 1) as nat),
                key_at(dn, i + c),
            ) && (i + c + 1 < num_keys(d0) + count - 1 ==> kvs_upper_bounded(
                subtree_kvs(sf, pids[c], (h - 1) as nat),
                key_at(dn, i + c + 1),
            )) && subtree_kvs(sf, pids[c], (h - 1) as nat).len() >= 1,
{
    let hp = (h - 1) as nat;
    assert forall|c: int| 0 <= c < count implies kvs_lower_bounded(
        subtree_kvs(sf, #[trigger] pids[c], hp),
        key_at(dn, i + c),
    ) && (i + c + 1 < num_keys(d0) + count - 1 ==> kvs_upper_bounded(
        subtree_kvs(sf, pids[c], hp),
        key_at(dn, i + c + 1),
    )) && subtree_kvs(sf, pids[c], hp).len() >= 1 by {
        lemma_rebuild_fence_piece(
            sa,
            sf,
            d0,
            dn,
            dr,
            h,
            i,
            count,
            c,
            pids,
            pbytes,
            cuts,
            sep0,
            child_id,
        );
    }
}

/// The rebuilt node itself is sound: sorted separator keys, size-respecting
/// records, internal kind.
#[verifier::rlimit(100)]
#[verifier::spinoff_prover]
proof fn lemma_rebuild_node_ok(
    sa: Map<u64, Seq<u8>>,
    sf: Map<u64, Seq<u8>>,
    d0: Seq<u8>,
    dn: Seq<u8>,
    dr: Seq<u8>,
    h: nat,
    i: int,
    count: int,
    pids: Seq<u64>,
    pbytes: Seq<Seq<u8>>,
    cuts: Seq<int>,
    sep0: Seq<u8>,
    child_id: u64,
)
    requires
        rebuild_ctx(sa, sf, d0, dn, dr, h, i, count, pids, pbytes, cuts, sep0, child_id),
    ensures
        node_ok(dn, h),
{
    let hp = (h - 1) as nat;
    let n = num_keys(d0) as int;
    let ntot = n + count - 1;
    let nr = num_keys(dr) as int;
    assert forall|j: int| 1 <= j < count implies key_at(dn, i + j) == key_at(
        dr,
        #[trigger] cuts[j],
    ) && key_len(dn, i + j) <= BTREE_MAX_KEY_SIZE as nat by {
        assert(key_at(dn, i + j) == key_at(pbytes[j], 0));
        assert(keys_of(pbytes[j])[0] == keys_of(dr).subrange(cuts[j], cuts[j + 1])[0]);
        lemma_cuts_monotone(cuts, count, 0, j);
        lemma_cuts_monotone(cuts, count, j + 1, count);
        lemma_record_in_bounds(dn, i + j);
        lemma_record_in_bounds(dr, cuts[j]);
        assert(key_at(dn, i + j).len() == key_len(dn, i + j));
        assert(key_at(dr, cuts[j]).len() == key_len(dr, cuts[j]));
        assert(key_len(dr, cuts[j]) <= BTREE_MAX_KEY_SIZE as nat);
    }
    // each piece's pairs, fenced between its separator and the next key
    lemma_rebuild_fences(sa, sf, d0, dn, dr, h, i, count, pids, pbytes, cuts, sep0, child_id);
    // adjacent keys grow
    assert forall|j: int|
        0 <= j < num_keys(dn) - 1 implies lex_lt(#[trigger] key_at(dn, j), key_at(dn, j + 1)) by {
        if j + 1 < i {
            assert(lex_lt(key_at(d0, j), key_at(d0, j + 1)));
        } else if j + 1 == i {
            assert(key_at(dn, j) == key_at(d0, j) && j == i - 1);
        } else if i <= j < i + count {
            let c = j - i;
            let pkvs = subtree_kvs(sf, pids[c], hp);
            assert(kvs_lower_bounded(pkvs, key_at(dn, j)));
            assert(j + 1 < ntot);
            assert(kvs_upper_bounded(pkvs, key_at(dn, j + 1)));
            assert(pkvs.len() >= 1);
            assert(lex_le(key_at(dn, j), pkvs[0].0));
            assert(lex_lt(pkvs[0].0, key_at(dn, j + 1)));
            lemma_lex_le_lt_trans(key_at(dn, j), pkvs[0].0, key_at(dn, j + 1));
        } else {
            assert(key_at(dn, j) == key_at(d0, j - count + 1));
            assert(key_at(dn, j + 1) == key_at(d0, j - count + 2));
            assert(lex_lt(key_at(d0, j - count + 1), key_at(d0, j - count + 2)));
        }
    }
    lemma_adjacent_sorted(dn);
    // sizes of every record
    assert forall|j: int|
        0 <= j < num_keys(dn) implies #[trigger] key_len(dn, j) <= BTREE_MAX_KEY_SIZE as nat
        && val_len(dn, j) <= BTREE_MAX_VAL_SIZE as nat by {
        lemma_record_in_bounds(dn, j);
        assert(key_at(dn, j).len() == key_len(dn, j));
        assert(val_at(dn, j).len() == val_len(dn, j));
        if j < i {
            lemma_record_in_bounds(d0, j);
            assert(key_at(d0, j).len() == key_len(d0, j));
            assert(val_at(d0, j).len() == val_len(d0, j));
        } else if j == i {
            assert(key_at(dn, j) == sep0);
        } else if j < i + count {
        } else {
            lemma_record_in_bounds(d0, j - count + 1);
            assert(key_at(d0, j - count + 1).len() == key_len(d0, j - count + 1));
            assert(val_at(d0, j - count + 1).len() == val_len(d0, j - count + 1));
        }
    }
    assert(records_fit_page(dn)) by {
        assert forall|j: int|
            0 <= j < num_keys(dn) implies 14 + #[trigger] entry_span(dn, j)
            <= BTREE_PAGE_SIZE as int by {
            assert(key_len(dn, j) <= BTREE_MAX_KEY_SIZE as nat);
            assert(val_len(dn, j) <= BTREE_MAX_VAL_SIZE as nat);
        }
    }
    assert(node_ok(dn, h));
}

/// Entries before the replaced child decode in the assembled node as in
/// the old node.
#[verifier::rlimit(100)]
#[verifier::spinoff_prover]
proof fn lemma_pack_prefix(d0: Seq<u8>, dpre: Seq<u8>, dn: Seq<u8>, i: int, count: int)
    requires
        0 <= i,
        1 <= count,
        i + count <= num_keys(dn),
        i <= num_keys(d0),
        i + count <= num_keys(dpre),
        keys_of(dpre).subrange(0, i) == keys_of(d0).subrange(0, i),
        vals_of(dpre).subrange(0, i) == vals_of(d0).subrange(0, i),
        ptrs_of(dpre).subrange(0, i) == ptrs_of(d0).subrange(0, i),
        keys_of(dn).subrange(0, i + count) == keys_of(dpre).subrange(0, i + count),
        vals_of(dn).subrange(0, i + count) == vals_of(dpre).subrange(0, i + count),
        ptrs_of(dn).subrange(0, i + count) == ptrs_of(dpre).subrange(0, i + count),
    ensures
        forall|j: int|
            0 <= j < i ==> #[trigger] key_at(dn, j) == key_at(d0, j) && val_at(dn, j) == val_at(
                d0,
                j,
            ) && ptr_at(dn, j) == ptr_at(d0, j),
{
    assert forall|j: int| 0 <= j < i implies #[trigger] key_at(dn, j) == key_at(d0, j) by {
        assert(keys_of(dn)[j] == keys_of(dn).subrange(0, i + count)[j]);
        assert(keys_of(dpre)[j] == keys_of(dpre).subrange(0, i + count)[j]);
        assert(keys_of(dpre)[j] == keys_of(dpre).subrange(0, i)[j]);
        assert(keys_of(d0)[j] == keys_of(d0).subrange(0, i)[j]);
        assert(key_at(dn, j) == keys_of(dn)[j]);
        assert(key_at(d0, j) == keys_of(d0)[j]);
    }
    assert forall|j: int| 0 <= j < i implies #[trigger] val_at(dn, j) == val_at(d0, j) by {
        assert(vals_of(dn)[j] == vals_of(dn).subrange(0, i + count)[j]);
        assert(vals_of(dpre)[j] == vals_of(dpre).subrange(0, i + count)[j]);
        assert(vals_of(dpre)[j] == vals_of(dpre).subrange(0, i)[j]);
        assert(vals_of(d0)[j] == vals_of(d0).subrange(0, i)[j]);
        assert(val_at(dn, j) == vals_of(dn)[j]);
        assert(val_at(d0, j) == vals_of(d0)[j]);
    }
    assert forall|j: int| 0 <= j < i implies #[trigger] ptr_at(dn, j) == ptr_at(d0, j) by {
        assert(ptrs_of(dn)[j] == ptrs_of(dn).subrange(0, i + count)[j]);
        assert(ptrs_of(dpre)[j] == ptrs_of(dpre).subrange(0, i + count)[j]);
        assert(ptrs_of(dpre)[j] == ptrs_of(dpre).subrange(0, i)[j]);
        assert(ptrs_of(d0)[j] == ptrs_of(d0).subrange(0, i)[j]);
        assert(ptr_at(dn, j) == ptrs_of(dn)[j]);
        assert(ptr_at(d0, j) == ptrs_of(d0)[j]);
    }
}

/// The per-piece entries of the loop's outcome decode unchanged in the
/// assembled node.
#[verifier::rlimit(100)]
#[verifier::spinoff_prover]
proof fn lemma_pack_mid(
    dpre: Seq<u8>,
    dn: Seq<u8>,
    i: int,
    count: int,
    pids: Seq<u64>,
    pbytes: Seq<Seq<u8>>,
)
    requires
        0 <= i,
        1 <= count,
        pids.len() == count,
        pbytes.len() == count,
        i + count <= num_keys(dn),
        i + count <= num_keys(dpre),
        forall|m: int|
            i <= m < i + count ==> #[trigger] key_at(dpre, m) == key_at(pbytes[m - i], 0)
                && val_at(dpre, m) == Seq::<u8>::empty() && ptr_at(dpre, m) == pids[m - i] as nat,
        keys_of(dn).subrange(0, i + count) == keys_of(dpre).subrange(0, i + count),
        vals_of(dn).subrange(0, i + count) == vals_of(dpre).subrange(0, i + count),
        ptrs_of(dn).subrange(0, i + count) == ptrs_of(dpre).subrange(0, i + count),
    ensures
        forall|j: int|
            i <= j < i + count ==> #[trigger] key_at(dn, j) == key_at(pbytes[j - i], 0) && val_at(
                dn,
                j,
            ) == Seq::<u8>::empty() && ptr_at(dn, j) == pids[j - i] as nat,
{
    assert forall|j: int|
        i <= j < i + count implies #[trigger] key_at(dn, j) == key_at(pbytes[j - i], 0) by {
        assert(keys_of(dn)[j] == keys_of(dn).subrange(0, i + count)[j]);
        assert(keys_of(dpre)[j] == keys_of(dpre).subrange(0, i + count)[j]);
        assert(key_at(dn, j) == keys_of(dn)[j]);
        assert(key_at(dpre, j) == keys_of(dpre)[j]);
        assert(key_at(dpre, j) == key_at(pbytes[j - i], 0));
    }
    assert forall|j: int|
        i <= j < i + count implies #[trigger] val_at(dn, j) == Seq::<u8>::empty() by {
        assert(key_at(dpre, j) == key_at(pbytes[j - i], 0));
        assert(vals_of(dn)[j] == vals_of(dn).subrange(0, i + count)[j]);
        assert(vals_of(dpre)[j] == vals_of(dpre).subrange(0, i + count)[j]);
        assert(val_at(dn, j) == vals_of(dn)[j]);
        assert(val_at(dpre, j) == vals_of(dpre)[j]);
        assert(val_at(dpre, j) == Seq::<u8>::empty());
    }
    assert forall|j: int|
        i <= j < i + count implies #[trigger] ptr_at(dn, j) == pids[j - i] as nat by {
        assert(key_at(dpre, j) == key_at(pbytes[j - i], 0));
        assert(ptrs_of(dn)[j] == ptrs_of(dn).subrange(0, i + count)[j]);
        assert(ptrs_of(dpre)[j] == ptrs_of(dpre).subrange(0, i + count)[j]);
        assert(ptr_at(dn, j) == ptrs_of(dn)[j]);
        assert(ptr_at(dpre, j) == ptrs_of(dpre)[j]);
        assert(ptr_at(dpre, j) == pids[j - i] as nat);
    }
}

/// Entries after the replaced child decode in the assembled node as the old
/// node's remaining entries, shifted by the piece count.
#[verifier::rlimit(100)]
#[verifier::spinoff_prover]
proof fn lemma_pack_suffix(d0: Seq<u8>, dn: Seq<u8>, i: int, count: int)
    requires
        0 <= i < num_keys(d0),
        1 <= count,
        num_keys(dn) == num_keys(d0) + count - 1,
        keys_of(dn).subrange(i + count, num_keys(dn) as int) == keys_of(d0).subrange(
            i + 1,
            num_keys(d0) as int,
        ),
        vals_of(dn).subrange(i + count, num_keys(dn) as int) == vals_of(d0).subrange(
            i + 1,
            num_keys(d0) as int,
        ),
        ptrs_of(dn).subrange(i + count, num_keys(dn) as int) == ptrs_of(d0).subrange(
            i + 1,
            num_keys(d0) as int,
        ),
    ensures
        forall|j: int|
            i + count <= j < num_keys(d0) + count - 1 ==> #[trigger] key_at(dn, j) == key_at(
                d0,
                j - count + 1,
            ) && val_at(dn, j) == val_at(d0, j - count + 1) && ptr_at(dn, j) == ptr_at(
                d0,
                j - count + 1,
            ),
{
    let n = num_keys(d0) as int;
    let ntot = n + count - 1;
    assert forall|j: int|
        i + count <= j < ntot implies #[trigger] key_at(dn, j) == key_at(d0, j - count + 1)
        && val_at(dn, j) == val_at(d0, j - count + 1) && ptr_at(dn, j) == ptr_at(
        d0,
        j - count + 1,
    ) by {
        assert(keys_of(dn).subrange(i + count, ntot)[j - i - count] == keys_of(d0).subrange(
            i + 1,
            n,
        )[j - i - count]);
        assert(vals_of(dn).subrange(i + count, ntot)[j - i - count] == vals_of(d0).subrange(
            i + 1,
            n,
        )[j - i - count]);
        assert(ptrs_of(dn).subrange(i + count, ntot)[j - i - count] == ptrs_of(d0).subrange(
            i + 1,
            n,
        )[j - i - count]);
    }
}

/// Establishes the rebuild context from the loop's outcome and the
/// copied suffix.
#[verifier::rlimit(100)]
#[verifier::spinoff_prover]
proof fn lemma_rebuild_ctx_intro(
    sa: Map<u64, Seq<u8>>,
    sf: Map<u64, Seq<u8>>,
    d0: Seq<u8>,
    dpre: Seq<u8>,
    dn: Seq<u8>,
    dr: Seq<u8>,
    h: nat,
    i: int,
    count: int,
    pids: Seq<u64>,
    pbytes: Seq<Seq<u8>>,
    cuts: Seq<int>,
    sep0: Seq<u8>,
    child_id: u64,
)
    requires
        ({
            let hp = (h - 1) as nat;
            let n = num_keys(d0) as int;
            let ntot = n + count - 1;
            &&& h >= 1
            &&& node_ok(d0, h)
            &&& node_size(d0) <= BTREE_PAGE_SIZE as int
            &&& 0 <= i < n
            &&& kids_wf(sa, d0, h, 0, i)
            &&& kids_wf(sa, d0, h, i + 1, n)
            &&& kids_ids(sa, d0, h, 0, i).disjoint(kids_ids(sa, d0, h, i + 1, n))
            &&& subtree_wf_data(sa, dr, hp)
            &&& 1 <= count <= 3
            &&& pids.len() == count
            &&& pbytes.len() == count
            &&& cuts.len() == count + 1
            &&& cuts[0] == 0
            &&& cuts[count] == num_keys(dr)
            &&& (forall|j: int| 0 <= j < count ==> #[trigger] cuts[j] < cuts[j + 1])
            &&& (forall|j: int|
                0 <= j < count ==> node_wf(#[trigger] pbytes[j]) && node_size(pbytes[j])
                    <= BTREE_PAGE_SIZE as int && node_kind(pbytes[j]) == node_kind(dr) && num_keys(
                    pbytes[j],
                ) == cuts[j + 1] - cuts[j])
            &&& (forall|j: int|
                0 <= j < count ==> keys_of(#[trigger] pbytes[j]) == keys_of(dr).subrange(
                    cuts[j],
                    cuts[j + 1],
                ) && vals_of(pbytes[j]) == vals_of(dr).subrange(cuts[j], cuts[j + 1]) && ptrs_of(
                    pbytes[j],
                ) == ptrs_of(dr).subrange(cuts[j], cuts[j + 1]))
            &&& sep0.len() <= BTREE_MAX_KEY_SIZE
            &&& sep0 == key_at(dr, 0)
            &&& (1 <= i ==> lex_le(key_at(d0, i), sep0))
            &&& (i > 0 ==> lex_lt(key_at(d0, i - 1), sep0))
            &&& (i + 1 < n ==> kvs_upper_bounded(subtree_kvs_data(sa, dr, hp), key_at(d0, i + 1)))
            &&& sa.contains_key(child_id)
            &&& !kids_ids(sa, d0, h, 0, i).contains(child_id)
            &&& !kids_ids(sa, d0, h, i + 1, n).contains(child_id)
            &&& !subtree_ids_data(sa, dr, hp).contains(child_id)
            &&& (forall|p: u64|
                #[trigger] subtree_ids_data(sa, dr, hp).contains(p) ==> !kids_ids(
                    sa,
                    d0,
                    h,
                    0,
                    i,
                ).contains(p) && !kids_ids(sa, d0, h, i + 1, n).contains(p))
            // the loop's outcome on the node before the suffix copy
            &&& sep0 == key_at(pbytes[0], 0)
            &&& num_keys(dpre) == ntot
            &&& node_kind(dpre) == BNODE_INTERNAL as nat
            &&& keys_of(dpre).subrange(0, i) == keys_of(d0).subrange(0, i)
            &&& vals_of(dpre).subrange(0, i) == vals_of(d0).subrange(0, i)
            &&& ptrs_of(dpre).subrange(0, i) == ptrs_of(d0).subrange(0, i)
            &&& (forall|m: int|
                i <= m < i + count ==> #[trigger] key_at(dpre, m) == key_at(pbytes[m - i], 0)
                    && val_at(dpre, m) == Seq::<u8>::empty() && ptr_at(dpre, m) == pids[m
                    - i] as nat)
            // the suffix copy's outcome
            &&& dn.len() == 2 * BTREE_PAGE_SIZE - 4
            &&& num_keys(dn) == ntot
            &&& node_kind(dn) == BNODE_INTERNAL as nat
            &&& wf_upto(dn, ntot)
            &&& kv_pos(dn, ntot) <= dn.len()
            &&& keys_of(dn).subrange(0, i + count) == keys_of(dpre).subrange(0, i + count)
            &&& vals_of(dn).subrange(0, i + count) == vals_of(dpre).subrange(0, i + count)
            &&& ptrs_of(dn).subrange(0, i + count) == ptrs_of(dpre).subrange(0, i + count)
            &&& keys_of(dn).subrange(i + count, ntot) == keys_of(d0).subrange(i + 1, n)
            &&& vals_of(dn).subrange(i + count, ntot) == vals_of(d0).subrange(i + 1, n)
            &&& ptrs_of(dn).subrange(i + count, ntot) == ptrs_of(d0).subrange(i + 1, n)
            // the store at the end
            &&& preserved_except(sa, sf, child_id)
            &&& !sf.contains_key(child_id)
            &&& (forall|j: int|
                0 <= j < count ==> sf.contains_key(#[trigger] pids[j]) && sf[pids[j]] == pbytes[j]
                    && !sa.contains_key(pids[j]))
            &&& (forall|j1: int, j2: int|
                0 <= j1 < j2 < count ==> (#[trigger] pids[j1]) != (#[trigger] pids[j2]))
        }),
    ensures
        rebuild_ctx(sa, sf, d0, dn, dr, h, i, count, pids, pbytes, cuts, sep0, child_id),
        node_wf(dn),
{
    let hp = (h - 1) as nat;
    let n = num_keys(d0) as int;
    let ntot = n + count - 1;
    assert(num_keys(dpre) == ntot);
    assert(keys_of(dn).subrange(0, i + count) == keys_of(dpre).subrange(0, i + count));
    assert(keys_of(dpre).subrange(0, i) == keys_of(d0).subrange(0, i));
    assert(node_wf(dn)) by {
        assert(node_size(dn) == kv_pos(dn, ntot));
    }
    lemma_pack_prefix(d0, dpre, dn, i, count);
    lemma_pack_mid(dpre, dn, i, count, pids, pbytes);
    lemma_pack_suffix(d0, dn, i, count);
    assert(key_at(dn, i) == key_at(pbytes[0], 0));
    assert(key_at(dn, i) == sep0);
    assert forall|j: int|
        i <= j < i + count implies #[trigger] ptr_at(dn, j) == pids[j - i] as nat && val_at(dn, j)
        == Seq::<u8>::empty() by {
        assert(key_at(dn, j) == key_at(pbytes[j - i], 0));
    }
    assert forall|j: int|
        i + 1 <= j < i + count implies #[trigger] key_at(dn, j) == key_at(pbytes[j - i], 0) by {
        assert(0 <= j - i < count);
    }
    assert(rebuild_ctx(sa, sf, d0, dn, dr, h, i, count, pids, pbytes, cuts, sep0, child_id));
}

/// Packs the rebuild's bookkeeping into the new node's consistency: given
/// the loop's outcome and the copied suffix, the finished node is a
/// consistent internal node over the spliced content.
#[verifier::rlimit(100)]
#[verifier::spinoff_prover]
proof fn lemma_rebuild_pack(
    sa: Map<u64, Seq<u8>>,
    sf: Map<u64, Seq<u8>>,
    d0: Seq<u8>,
    dpre: Seq<u8>,
    dn: Seq<u8>,
    dr: Seq<u8>,
    h: nat,
    i: int,
    count: int,
    pids: Seq<u64>,
    pbytes: Seq<Seq<u8>>,
    cuts: Seq<int>,
    sep0: Seq<u8>,
    child_id: u64,
)
    requires
        ({
            let hp = (h - 1) as nat;
            let n = num_keys(d0) as int;
            let ntot = n + count - 1;
            &&& h >= 1
            &&& node_ok(d0, h)
            &&& node_size(d0) <= BTREE_PAGE_SIZE as int
            &&& 0 <= i < n
            &&& kids_wf(sa, d0, h, 0, i)
            &&& kids_wf(sa, d0, h, i + 1, n)
            &&& kids_ids(sa, d0, h, 0, i).disjoint(kids_ids(sa, d0, h, i + 1, n))
            &&& subtree_wf_data(sa, dr, hp)
            &&& 1 <= count <= 3
            &&& pids.len() == count
            &&& pbytes.len() == count
            &&& cuts.len() == count + 1
            &&& cuts[0] == 0
            &&& cuts[count] == num_keys(dr)
            &&& (forall|j: int| 0 <= j < count ==> #[trigger] cuts[j] < cuts[j + 1])
            &&& (forall|j: int|
                0 <= j < count ==> node_wf(#[trigger] pbytes[j]) && node_size(pbytes[j])
                    <= BTREE_PAGE_SIZE as int && node_kind(pbytes[j]) == node_kind(dr) && num_keys(
                    pbytes[j],
                ) == cuts[j + 1] - cuts[j])
            &&& (forall|j: int|
                0 <= j < count ==> keys_of(#[trigger] pbytes[j]) == keys_of(dr).subrange(
                    cuts[j],
                    cuts[j + 1],
                ) && vals_of(pbytes[j]) == vals_of(dr).subrange(cuts[j], cuts[j + 1]) && ptrs_of(
                    pbytes[j],
                ) == ptrs_of(dr).subrange(cuts[j], cuts[j + 1]))
            &&& sep0.len() <= BTREE_MAX_KEY_SIZE
            &&& sep0 == key_at(dr, 0)
            &&& (1 <= i ==> lex_le(key_at(d0, i), sep0))
            &&& (i > 0 ==> lex_lt(key_at(d0, i - 1), sep0))
            &&& (i + 1 < n ==> kvs_upper_bounded(subtree_kvs_data(sa, dr, hp), key_at(d0, i + 1)))
            &&& sa.contains_key(child_id)
            &&& !kids_ids(sa, d0, h, 0, i).contains(child_id)
            &&& !kids_ids(sa, d0, h, i + 1, n).contains(child_id)
            &&& !subtree_ids_data(sa, dr, hp).contains(child_id)
            &&& (forall|p: u64|
                #[trigger] subtree_ids_data(sa, dr, hp).contains(p) ==> !kids_ids(
                    sa,
                    d0,
                    h,
                    0,
                    i,
                ).contains(p) && !kids_ids(sa, d0, h, i + 1, n).contains(p))
            // the loop's outcome on the node before the suffix copy
            &&& sep0 == key_at(pbytes[0], 0)
            &&& num_keys(dpre) == ntot
            &&& node_kind(dpre) == BNODE_INTERNAL as nat
            &&& keys_of(dpre).subrange(0, i) == keys_of(d0).subrange(0, i)
            &&& vals_of(dpre).subrange(0, i) == vals_of(d0).subrange(0, i)
            &&& ptrs_of(dpre).subrange(0, i) == ptrs_of(d0).subrange(0, i)
            &&& (forall|m: int|
                i <= m < i + count ==> #[trigger] key_at(dpre, m) == key_at(pbytes[m - i], 0)
                    && val_at(dpre, m) == Seq::<u8>::empty() && ptr_at(dpre, m) == pids[m
                    - i] as nat)
            // the suffix copy's outcome
            &&& dn.len() == 2 * BTREE_PAGE_SIZE - 4
            &&& num_keys(dn) == ntot
            &&& node_kind(dn) == BNODE_INTERNAL as nat
            &&& wf_upto(dn, ntot)
            &&& kv_pos(dn, ntot) <= dn.len()
            &&& keys_of(dn).subrange(0, i + count) == keys_of(dpre).subrange(0, i + count)
            &&& vals_of(dn).subrange(0, i + count) == vals_of(dpre).subrange(0, i + count)
            &&& ptrs_of(dn).subrange(0, i + count) == ptrs_of(dpre).subrange(0, i + count)
            &&& keys_of(dn).subrange(i + count, ntot) == keys_of(d0).subrange(i + 1, n)
            &&& vals_of(dn).subrange(i + count, ntot) == vals_of(d0).subrange(i + 1, n)
            &&& ptrs_of(dn).subrange(i + count, ntot) == ptrs_of(d0).subrange(i + 1, n)
            // the store at the end
            &&& preserved_except(sa, sf, child_id)
            &&& !sf.contains_key(child_id)
            &&& (forall|j: int|
                0 <= j < count ==> sf.contains_key(#[trigger] pids[j]) && sf[pids[j]] == pbytes[j]
                    && !sa.contains_key(pids[j]))
            &&& (forall|j1: int, j2: int|
                0 <= j1 < j2 < count ==> (#[trigger] pids[j1]) != (#[trigger] pids[j2]))
        }),
    ensures
        ({
            let hp = (h - 1) as nat;
            let n = num_keys(d0) as int;
            &&& subtree_wf_data(sf, dn, h)
            &&& num_keys(dn) == n + count - 1
            &&& node_size(dn) <= 2 * BTREE_PAGE_SIZE as int - 4
            &&& subtree_kvs_data(sf, dn, h) == kids_kvs(sa, d0, h, 0, i) + (subtree_kvs_data(
                sa,
                dr,
                hp,
            ) + kids_kvs(sa, d0, h, i + 1, n))
            &&& (forall|p: u64|
                #[trigger] subtree_ids_data(sf, dn, h).contains(p) ==> kids_ids(
                    sa,
                    d0,
                    h,
                    0,
                    i,
                ).contains(p) || kids_ids(sa, d0, h, i + 1, n).contains(p) || subtree_ids_data(
                    sa,
                    dr,
                    hp,
                ).contains(p) || !sa.contains_key(p))
            &&& key_at(dn, i) == sep0
        }),
{
    let hp = (h - 1) as nat;
    let n = num_keys(d0) as int;
    let ntot = n + count - 1;
    lemma_rebuild_ctx_intro(sa, sf, d0, dpre, dn, dr, h, i, count, pids, pbytes, cuts, sep0, child_id);
    lemma_rebuild_assembly(sa, sf, d0, dn, dr, h, i, count, pids, pbytes, cuts, sep0, child_id);
    lemma_rebuild_node_ok(sa, sf, d0, dn, dr, h, i, count, pids, pbytes, cuts, sep0, child_id);
    assert(subtree_wf_data(sf, dn, h));
    assert(subtree_kvs_data(sf, dn, h) == kids_kvs(sf, dn, h, 0, ntot));
    assert(subtree_ids_data(sf, dn, h) == kids_ids(sf, dn, h, 0, ntot));
}

/// Writing a pair whose key respects a lower bound keeps the bound.
proof fn lemma_kvs_insert_lower(x: KvList, k: Seq<u8>, v: Seq<u8>, lo: Seq<u8>)
    requires
        kvs_sorted(x),
        kvs_lower_bounded(x, lo),
        lex_le(lo, k),
    ensures
        kvs_lower_bounded(kvs_insert(x, k, v), lo),
{
    lemma_kvs_insert_sorted(x, k, v);
    let r = kvs_insert(x, k, v);
    assert forall|j: int| 0 <= j < r.len() implies lex_le(lo, (#[trigger] r[j]).0) by {
        if r[j].0 != k {
            assert(kvs_contains_key(x, r[j].0));
            lemma_kvs_contains_position(x, r[j].0);
            let m = choose|m: int| 0 <= m < x.len() && (#[trigger] x[m]).0 == r[j].0;
            assert(lex_le(lo, x[m].0));
        }
    }
}

/// Writing a pair whose key respects an upper bound keeps the bound.
proof fn lemma_kvs_insert_upper(x: KvList, k: Seq<u8>, v: Seq<u8>, hi: Seq<u8>)
    requires
        kvs_sorted(x),
        kvs_upper_bounded(x, hi),
        lex_lt(k, hi),
    ensures
        kvs_upper_bounded(kvs_insert(x, k, v), hi),
{
    lemma_kvs_insert_sorted(x, k, v);
    let r = kvs_insert(x, k, v);
    assert forall|j: int| 0 <= j < r.len() implies lex_lt((#[trigger] r[j]).0, hi) by {
        if r[j].0 != k {
            assert(kvs_contains_key(x, r[j].0));
            lemma_kvs_contains_position(x, r[j].0);
            let m = choose|m: int| 0 <= m < x.len() && (#[trigger] x[m]).0 == r[j].0;
            assert(lex_lt(x[m].0, hi));
        }
    }
}

/// A leaf rebuilt with one pair spliced in at its sorted position holds the
/// written list and stays sorted.
#[verifier::rlimit(100)]
proof fn lemma_leaf_splice(d0: Seq<u8>, dn: Seq<u8>, p: int, k: Seq<u8>, v: Seq<u8>, replace: bool)
    requires
        node_wf(d0),
        node_wf(dn),
        keys_sorted(d0),
        0 <= p <= num_keys(d0),
        replace ==> p < num_keys(d0) && key_at(d0, p) == k,
        num_keys(dn) == if replace {
            num_keys(d0) as int
        } else {
            num_keys(d0) + 1 as int
        },
        keys_of(dn).subrange(0, p) == keys_of(d0).subrange(0, p),
        vals_of(dn).subrange(0, p) == vals_of(d0).subrange(0, p),
        key_at(dn, p) == k,
        val_at(dn, p) == v,
        keys_of(dn).subrange(p + 1, num_keys(dn) as int) == keys_of(d0).subrange(
            if replace {
                p + 1
            } else {
                p
            },
            num_keys(d0) as int,
        ),
        vals_of(dn).subrange(p + 1, num_keys(dn) as int) == vals_of(d0).subrange(
            if replace {
                p + 1
            } else {
                p
            },
            num_keys(d0) as int,
        ),
        p > 0 ==> lex_lt(key_at(d0, p - 1), k),
        !replace && p < num_keys(d0) ==> lex_lt(k, key_at(d0, p)),
    ensures
        leaf_kvs(dn) == kvs_insert(leaf_kvs(d0), k, v),
        keys_sorted(dn),
{
    let n = num_keys(d0) as int;
    let nn = num_keys(dn) as int;
    let okvs = leaf_kvs(d0);
    let a = okvs.subrange(0, p);
    let b = okvs.subrange(if replace {
        p + 1
    } else {
        p
    }, n);
    // the rebuilt leaf is the splice
    assert forall|j: int| 0 <= j < nn implies #[trigger] key_at(dn, j) == (a + seq![(k, v)]
        + b)[j].0 && val_at(dn, j) == (a + seq![(k, v)] + b)[j].1 by {
        if j < p {
            assert(keys_of(dn)[j] == keys_of(dn).subrange(0, p)[j]);
            assert(keys_of(d0)[j] == keys_of(d0).subrange(0, p)[j]);
            assert(vals_of(dn)[j] == vals_of(dn).subrange(0, p)[j]);
            assert(vals_of(d0)[j] == vals_of(d0).subrange(0, p)[j]);
            assert(key_at(dn, j) == keys_of(dn)[j]);
            assert(val_at(dn, j) == vals_of(dn)[j]);
            assert((a + seq![(k, v)] + b)[j] == a[j]);
            assert(a[j] == okvs[j]);
        } else if j == p {
            assert((a + seq![(k, v)] + b)[j] == (k, v));
        } else {
            let src = if replace {
                j
            } else {
                j - 1
            };
            assert(keys_of(dn)[j] == keys_of(dn).subrange(p + 1, nn)[j - p - 1]);
            assert(vals_of(dn)[j] == vals_of(dn).subrange(p + 1, nn)[j - p - 1]);
            assert(keys_of(d0).subrange(if replace {
                p + 1
            } else {
                p
            }, n)[j - p - 1] == keys_of(d0)[src]);
            assert(vals_of(d0).subrange(if replace {
                p + 1
            } else {
                p
            }, n)[j - p - 1] == vals_of(d0)[src]);
            assert(key_at(dn, j) == keys_of(dn)[j]);
            assert(val_at(dn, j) == vals_of(dn)[j]);
            assert((a + seq![(k, v)] + b)[j] == b[j - p - 1]);
            assert(b[j - p - 1] == okvs[src]);
        }
    }
    assert(leaf_kvs(dn) =~= a + seq![(k, v)] + b);
    // the mathematical insert is the same splice
    assert forall|j: int| 0 <= j < a.len() implies lex_lt((#[trigger] a[j]).0, k) by {
        assert(a[j] == okvs[j]);
        if j < p - 1 {
            assert(lex_lt(key_at(d0, j), key_at(d0, p - 1)));
            lemma_lex_lt_trans(key_at(d0, j), key_at(d0, p - 1), k);
        }
    }
    lemma_kvs_insert_prefix(a, okvs.subrange(p, n), k, v);
    assert(okvs =~= a + okvs.subrange(p, n));
    if replace {
        let tail = okvs.subrange(p, n);
        assert(tail[0].0 == k);
        lemma_lex_trichotomy(k, k);
        assert(kvs_insert(tail, k, v) == seq![(k, v)] + tail.skip(1));
        assert(tail.skip(1) =~= b);
    } else {
        let tail = okvs.subrange(p, n);
        if tail.len() == 0 {
            assert(kvs_insert(tail, k, v) == seq![(k, v)]);
            assert(seq![(k, v)] =~= seq![(k, v)] + b);
        } else {
            assert(tail[0].0 == key_at(d0, p));
            assert(lex_lt(k, tail[0].0));
            assert(kvs_insert(tail, k, v) == seq![(k, v)] + tail);
            assert(tail =~= b);
        }
    }
    assert(kvs_insert(okvs, k, v) == a + (seq![(k, v)] + b));
    assert(a + (seq![(k, v)] + b) =~= a + seq![(k, v)] + b);
    // sortedness of the result
    assert forall|j: int| 0 <= j < nn - 1 implies lex_lt(
        #[trigger] key_at(dn, j),
        key_at(dn, j + 1),
    ) by {
        assert(key_at(dn, j) == (a + seq![(k, v)] + b)[j].0);
        assert(key_at(dn, j + 1) == (a + seq![(k, v)] + b)[j + 1].0);
        if j + 1 < p {
            assert(lex_lt(key_at(d0, j), key_at(d0, j + 1)));
        } else if j + 1 == p {
            assert(key_at(dn, j) == key_at(d0, p - 1));
        } else if j == p {
            let src = if replace {
                j + 1
            } else {
                j
            };
            assert(key_at(dn, j + 1) == key_at(d0, src));
            if replace {
                assert(lex_lt(key_at(d0, p), key_at(d0, p + 1)));
            }
        } else {
            let src: int = if replace {
                1
            } else {
                0
            };
            assert(key_at(dn, j) == key_at(d0, j - 1 + src));
            assert(key_at(dn, j + 1) == key_at(d0, j + src));
            assert(lex_lt(key_at(d0, j - 1 + src), key_at(d0, j + src)));
        }
    }
    lemma_adjacent_sorted(dn);
}

/// Composes the recursion's and the rebuild's bookkeeping into the insert
/// contract at this node.
#[verifier::rlimit(100)]
#[verifier::spinoff_prover]
proof fn lemma_insert_compose(
    s0: Map<u64, Seq<u8>>,
    sa: Map<u64, Seq<u8>>,
    sf: Map<u64, Seq<u8>>,
    d0: Seq<u8>,
    dr: Seq<u8>,
    dn: Seq<u8>,
    h: nat,
    i: int,
    routed: bool,
    k: Seq<u8>,
    v: Seq<u8>,
    id: u64,
    child_id: u64,
)
    requires
        ({
            let hp = (h - 1) as nat;
            let n = num_keys(d0) as int;
            let x = subtree_kvs(s0, child_id, hp);
            let xn = subtree_kvs_data(sa, dr, hp);
            &&& h >= 1
            &&& subtree_wf(s0, id, h)
            &&& d0 == s0[id]
            &&& 0 <= i < n
            &&& child_id == ptr_u64(d0, i)
            &&& (routed ==> lex_le(key_at(d0, i), k))
            &&& (!routed ==> i == 0 && lex_lt(k, key_at(d0, 0)))
            &&& (routed && i + 1 < n ==> lex_lt(k, key_at(d0, i + 1)))
            &&& xn == kvs_insert(x, k, v)
            &&& (forall|p: u64|
                #![trigger s0.contains_key(p)]
                s0.contains_key(p) && !subtree_ids(s0, child_id, hp).contains(p)
                    ==> sa.contains_key(p) && sa[p] == s0[p])
            &&& sa.contains_key(child_id)
            &&& (forall|p: u64|
                #[trigger] subtree_ids_data(sa, dr, hp).contains(p) ==> p != child_id && (
                subtree_ids(s0, child_id, hp).contains(p) || !s0.contains_key(p)))
            &&& kids_kvs(sa, d0, h, 0, i) == kids_kvs(s0, d0, h, 0, i)
            &&& kids_kvs(sa, d0, h, i + 1, n) == kids_kvs(s0, d0, h, i + 1, n)
            &&& kids_ids(sa, d0, h, 0, i) == kids_ids(s0, d0, h, 0, i)
            &&& kids_ids(sa, d0, h, i + 1, n) == kids_ids(s0, d0, h, i + 1, n)
            &&& subtree_kvs_data(sf, dn, h) == kids_kvs(sa, d0, h, 0, i) + (xn + kids_kvs(
                sa,
                d0,
                h,
                i + 1,
                n,
            ))
            &&& preserved_except(sa, sf, child_id)
            &&& !sf.contains_key(child_id)
            &&& (forall|p: u64|
                #[trigger] subtree_ids_data(sf, dn, h).contains(p) ==> kids_ids(
                    sa,
                    d0,
                    h,
                    0,
                    i,
                ).contains(p) || kids_ids(sa, d0, h, i + 1, n).contains(p) || subtree_ids_data(
                    sa,
                    dr,
                    hp,
                ).contains(p) || !sa.contains_key(p))
        }),
    ensures
        subtree_kvs_data(sf, dn, h) == kvs_insert(subtree_kvs(s0, id, h), k, v),
        forall|p: u64|
            #![trigger s0.contains_key(p)]
            s0.contains_key(p) && !subtree_ids(s0, id, h).contains(p) ==> sf.contains_key(p)
                && sf[p] == s0[p],
        sf.contains_key(id) && sf[id] == s0[id],
        forall|p: u64|
            #[trigger] subtree_ids_data(sf, dn, h).contains(p) ==> p != id && (subtree_ids(
                s0,
                id,
                h,
            ).contains(p) || !s0.contains_key(p)),
{
    let hp = (h - 1) as nat;
    let n = num_keys(d0) as int;
    let x = subtree_kvs(s0, child_id, hp);
    let xn = subtree_kvs_data(sa, dr, hp);
    lemma_kids_wf_elim(s0, d0, h, 0, n, i);
    lemma_kids_wf_narrow(s0, d0, h, 0, n, i);
    lemma_kids_wf_tail(s0, d0, h, 0, n, i + 1);
    lemma_kids_one(s0, d0, h, i);
    lemma_kids_ids_in_dom(s0, d0, h, 0, n);

                
                // the spliced pairs are the inserted pairs
                let a = kids_kvs(s0, d0, h, 0, i);
                let b = kids_kvs(s0, d0, h, i + 1, n);
                lemma_kids_split(s0, d0, h, 0, i, n);
                lemma_kids_split(s0, d0, h, i, i + 1, n);
                assert(subtree_kvs(s0, id, h) == a + (x + b));
                lemma_kids_kvs_props(s0, d0, h, 0, i);
                lemma_kids_kvs_props(s0, d0, h, i + 1, n);
                assert forall|j: int| 0 <= j < a.len() implies lex_lt((#[trigger] a[j]).0, k) by {
                    assert(lex_lt(a[j].0, key_at(d0, i)));
                    if routed {
                        lemma_lex_lt_le_trans(a[j].0, key_at(d0, i), k);
                    }
                }
                assert forall|j: int| 0 <= j < b.len() implies lex_lt(k, (#[trigger] b[j]).0) by {
                    assert(i + 1 < n);
                    assert(lex_le(key_at(d0, i + 1), b[j].0));
                    if routed {
                        lemma_lex_lt_le_trans(k, key_at(d0, i + 1), b[j].0);
                    } else {
                        assert(lex_lt(k, key_at(d0, 0)));
                        assert(lex_lt(key_at(d0, 0), key_at(d0, i + 1)));
                        lemma_lex_lt_trans(k, key_at(d0, 0), key_at(d0, i + 1));
                        lemma_lex_lt_le_trans(k, key_at(d0, i + 1), b[j].0);
                    }
                }
                lemma_kvs_insert_prefix(a, x + b, k, v);
                lemma_kvs_insert_concat(x, b, k, v);
                assert(kvs_insert(subtree_kvs(s0, id, h), k, v) == a + (xn + b));
                assert(subtree_kvs_data(sf, dn, h) == a + (xn + b));
                // the store framing, composed across the two steps
                assert forall|pp: u64|
                    s0.contains_key(pp) && !subtree_ids(s0, id, h).contains(pp) implies
                    sf.contains_key(pp) && sf[pp] == s0[pp] by {
                    assert(!subtree_ids(s0, child_id, hp).contains(pp)) by {
                        lemma_kids_ids_member(s0, d0, h, 0, n, pp);
                        if subtree_ids(s0, child_id, hp).contains(pp) {
                            assert(kids_ids(s0, d0, h, i, i + 1) == subtree_ids(
                                s0,
                                child_id,
                                hp,
                            ));
                            lemma_kids_ids_member(s0, d0, h, i, i + 1, pp);
                            let jw = choose|jw: int|
                                i <= jw < i + 1 && (#[trigger] subtree_ids(
                                    s0,
                                    ptr_u64(d0, jw),
                                    hp,
                                )).contains(pp);
                            assert(kids_ids(s0, d0, h, 0, n).contains(pp));
                        }
                    }
                    assert(sa.contains_key(pp) && sa[pp] == s0[pp]);
                    assert(pp != child_id);
                }
                assert(sf.contains_key(id) && sf[id] == s0[id]) by {
                    assert(!kids_ids(s0, d0, h, 0, n).contains(id));
                    assert(!subtree_ids(s0, child_id, hp).contains(id)) by {
                        assert(kids_ids(s0, d0, h, i, i + 1) == subtree_ids(s0, child_id, hp));
                        lemma_kids_ids_member(s0, d0, h, i, i + 1, id);
                        lemma_kids_ids_member(s0, d0, h, 0, n, id);
                        if subtree_ids(s0, child_id, hp).contains(id) {
                            assert(kids_ids(s0, d0, h, 0, n).contains(id));
                        }
                    }
                    assert(sa.contains_key(id) && sa[id] == s0[id]);
                    assert(id != child_id) by {
                        assert(kids_ids(s0, d0, h, i, i + 1) == subtree_ids(s0, child_id, hp));
                        lemma_kids_ids_member(s0, d0, h, 0, n, child_id);
                        if id == child_id {
                            assert(kids_ids(s0, d0, h, 0, n).contains(id));
                        }
                    }
                }
                // where the new node's pages come from
                assert forall|pp: u64|
                    #[trigger] subtree_ids_data(sf, dn, h).contains(pp) implies pp != id && (
                subtree_ids(s0, id, h).contains(pp) || !s0.contains_key(pp)) by {
                    lemma_kids_ids_member(s0, d0, h, 0, n, pp);
                    if kids_ids(sa, d0, h, 0, i).contains(pp) {
                        assert(kids_ids(s0, d0, h, 0, i).contains(pp));
                        lemma_kids_ids_member(s0, d0, h, 0, i, pp);
                        let jw = choose|jw: int|
                            0 <= jw < i && (#[trigger] subtree_ids(s0, ptr_u64(d0, jw), hp)).contains(
                                pp,
                            );
                        assert(kids_ids(s0, d0, h, 0, n).contains(pp));
                        assert(subtree_ids(s0, id, h).contains(pp));
                        assert(pp != id);
                    } else if kids_ids(sa, d0, h, i + 1, n).contains(pp) {
                        assert(kids_ids(s0, d0, h, i + 1, n).contains(pp));
                        lemma_kids_ids_member(s0, d0, h, i + 1, n, pp);
                        let jw = choose|jw: int|
                            i + 1 <= jw < n && (#[trigger] subtree_ids(
                                s0,
                                ptr_u64(d0, jw),
                                hp,
                            )).contains(pp);
                        assert(kids_ids(s0, d0, h, 0, n).contains(pp));
                        assert(subtree_ids(s0, id, h).contains(pp));
                        assert(pp != id);
                    } else if subtree_ids_data(sa, dr, hp).contains(pp) {
                        assert(pp != child_id);
                        if subtree_ids(s0, child_id, hp).contains(pp) {
                            assert(kids_ids(s0, d0, h, i, i + 1) == subtree_ids(
                                s0,
                                child_id,
                                hp,
                            ));
                            lemma_kids_ids_member(s0, d0, h, i, i + 1, pp);
                            let jw = choose|jw: int|
                                i <= jw < i + 1 && (#[trigger] subtree_ids(
                                    s0,
                                    ptr_u64(d0, jw),
                                    hp,
                                )).contains(pp);
                            assert(kids_ids(s0, d0, h, 0, n).contains(pp));
                            assert(subtree_ids(s0, id, h).contains(pp));
                            assert(pp != id);
                        } else {
                            assert(!s0.contains_key(pp));
                            assert(pp != id);
                        }
                    } else {
                        assert(!sa.contains_key(pp));
                        if s0.contains_key(pp) {
                            if !subtree_ids(s0, child_id, hp).contains(pp) {
                                assert(sa.contains_key(pp));
                                assert(false);
                            }
                            assert(kids_ids(s0, d0, h, i, i + 1) == subtree_ids(
                                s0,
                                child_id,
                                hp,
                            ));
                            lemma_kids_ids_member(s0, d0, h, i, i + 1, pp);
                            let jw = choose|jw: int|
                                i <= jw < i + 1 && (#[trigger] subtree_ids(
                                    s0,
                                    ptr_u64(d0, jw),
                                    hp,
                                )).contains(pp);
                            assert(kids_ids(s0, d0, h, 0, n).contains(pp));
                            assert(subtree_ids(s0, id, h).contains(pp));
                        }
                        assert(pp != id) by {
                            assert(sa.contains_key(id));
                        }
                    }
                }
}

/// A leaf rebuilt around one size-respecting pair keeps every record within
/// the size maxima.
#[verifier::rlimit(100)]
#[verifier::spinoff_prover]
proof fn lemma_leaf_fit(d0: Seq<u8>, dn: Seq<u8>, p: int, k: Seq<u8>, v: Seq<u8>, replace: bool)
    requires
        node_wf(d0),
        node_wf(dn),
        entries_fit(d0),
        k.len() <= BTREE_MAX_KEY_SIZE,
        v.len() <= BTREE_MAX_VAL_SIZE,
        0 <= p <= num_keys(d0),
        replace ==> p < num_keys(d0),
        num_keys(dn) == if replace {
            num_keys(d0) as int
        } else {
            num_keys(d0) + 1 as int
        },
        keys_of(dn).subrange(0, p) == keys_of(d0).subrange(0, p),
        vals_of(dn).subrange(0, p) == vals_of(d0).subrange(0, p),
        key_at(dn, p) == k,
        val_at(dn, p) == v,
        keys_of(dn).subrange(p + 1, num_keys(dn) as int) == keys_of(d0).subrange(
            if replace {
                p + 1
            } else {
                p
            },
            num_keys(d0) as int,
        ),
        vals_of(dn).subrange(p + 1, num_keys(dn) as int) == vals_of(d0).subrange(
            if replace {
                p + 1
            } else {
                p
            },
            num_keys(d0) as int,
        ),
    ensures
        entries_fit(dn),
{
    let n = num_keys(d0) as int;
    let nn = num_keys(dn) as int;
    assert forall|j: int|
        0 <= j < nn implies #[trigger] key_len(dn, j) <= BTREE_MAX_KEY_SIZE as nat && val_len(
        dn,
        j,
    ) <= BTREE_MAX_VAL_SIZE as nat by {
        lemma_record_in_bounds(dn, j);
        assert(key_at(dn, j).len() == key_len(dn, j));
        assert(val_at(dn, j).len() == val_len(dn, j));
        if j < p {
            lemma_record_in_bounds(d0, j);
            assert(key_at(d0, j).len() == key_len(d0, j));
            assert(val_at(d0, j).len() == val_len(d0, j));
            assert(keys_of(dn)[j] == keys_of(dn).subrange(0, p)[j]);
            assert(keys_of(d0)[j] == keys_of(d0).subrange(0, p)[j]);
            assert(vals_of(dn)[j] == vals_of(dn).subrange(0, p)[j]);
            assert(vals_of(d0)[j] == vals_of(d0).subrange(0, p)[j]);
            assert(key_at(dn, j) == keys_of(dn)[j]);
            assert(val_at(dn, j) == vals_of(dn)[j]);
            assert(key_at(d0, j) == keys_of(d0)[j]);
            assert(val_at(d0, j) == vals_of(d0)[j]);
        } else if j == p {
        } else {
            let src: int = if replace {
                j
            } else {
                j - 1
            };
            lemma_record_in_bounds(d0, src);
            assert(key_at(d0, src).len() == key_len(d0, src));
            assert(val_at(d0, src).len() == val_len(d0, src));
            assert(keys_of(dn)[j] == keys_of(dn).subrange(p + 1, nn)[j - p - 1]);
            assert(vals_of(dn)[j] == vals_of(dn).subrange(p + 1, nn)[j - p - 1]);
            assert(keys_of(d0).subrange(if replace {
                p + 1
            } else {
                p
            }, n)[j - p - 1] == keys_of(d0)[src]);
            assert(vals_of(d0).subrange(if replace {
                p + 1
            } else {
                p
            }, n)[j - p - 1] == vals_of(d0)[src]);
            assert(key_at(dn, j) == keys_of(dn)[j]);
            assert(val_at(dn, j) == vals_of(dn)[j]);
            assert(key_at(d0, src) == keys_of(d0)[src]);
            assert(val_at(d0, src) == vals_of(d0)[src]);
        }
    }
}

/// Everything the rebuild needs, established right after the recursive
/// descent: the sibling windows survive in the new store, the rewritten
/// child's pairs respect the separators, and the superseded child page is
/// nobody else's.
#[verifier::rlimit(100)]
#[verifier::spinoff_prover]
proof fn lemma_insert_prepare(
    s0: Map<u64, Seq<u8>>,
    sa: Map<u64, Seq<u8>>,
    d0: Seq<u8>,
    dr: Seq<u8>,
    h: nat,
    i: int,
    routed: bool,
    k: Seq<u8>,
    v: Seq<u8>,
    child_id: u64,
    sep0: Seq<u8>,
)
    requires
        ({
            let hp = (h - 1) as nat;
            let n = num_keys(d0) as int;
            let x = subtree_kvs(s0, child_id, hp);
            &&& h >= 1
            &&& node_ok(d0, h)
            &&& kids_wf(s0, d0, h, 0, n)
            &&& 0 <= i < n
            &&& child_id == ptr_u64(d0, i)
            &&& sep0 == key_at(dr, 0)
            &&& (routed ==> lex_le(key_at(d0, i), k))
            &&& (!routed ==> i == 0 && lex_lt(k, key_at(d0, 0)))
            &&& (routed && i + 1 < n ==> lex_lt(k, key_at(d0, i + 1)))
            &&& subtree_wf_data(sa, dr, hp)
            &&& subtree_kvs_data(sa, dr, hp) == kvs_insert(x, k, v)
            &&& (forall|p: u64|
                #![trigger s0.contains_key(p)]
                s0.contains_key(p) && !subtree_ids(s0, child_id, hp).contains(p)
                    ==> sa.contains_key(p) && sa[p] == s0[p])
            &&& (forall|p: u64|
                #[trigger] subtree_ids_data(sa, dr, hp).contains(p) ==> p != child_id && (
                subtree_ids(s0, child_id, hp).contains(p) || !s0.contains_key(p)))
            &&& sa.contains_key(child_id)
        }),
    ensures
        ({
            let hp = (h - 1) as nat;
            let n = num_keys(d0) as int;
            let xn = subtree_kvs_data(sa, dr, hp);
            &&& kids_wf(sa, d0, h, 0, i)
            &&& kids_wf(sa, d0, h, i + 1, n)
            &&& kids_kvs(sa, d0, h, 0, i) == kids_kvs(s0, d0, h, 0, i)
            &&& kids_kvs(sa, d0, h, i + 1, n) == kids_kvs(s0, d0, h, i + 1, n)
            &&& kids_ids(sa, d0, h, 0, i) == kids_ids(s0, d0, h, 0, i)
            &&& kids_ids(sa, d0, h, i + 1, n) == kids_ids(s0, d0, h, i + 1, n)
            &&& kids_ids(sa, d0, h, 0, i).disjoint(kids_ids(sa, d0, h, i + 1, n))
            &&& kvs_lower_bounded(xn, sep0)
            &&& (1 <= i ==> lex_le(key_at(d0, i), sep0))
            &&& (i > 0 ==> lex_lt(key_at(d0, i - 1), sep0))
            &&& (i + 1 < n ==> kvs_upper_bounded(xn, key_at(d0, i + 1)))
            &&& !kids_ids(sa, d0, h, 0, i).contains(child_id)
            &&& !kids_ids(sa, d0, h, i + 1, n).contains(child_id)
            &&& !subtree_ids_data(sa, dr, hp).contains(child_id)
            &&& (forall|p: u64|
                #[trigger] subtree_ids_data(sa, dr, hp).contains(p) ==> !kids_ids(
                    sa,
                    d0,
                    h,
                    0,
                    i,
                ).contains(p) && !kids_ids(sa, d0, h, i + 1, n).contains(p))
        }),
{
    let hp = (h - 1) as nat;
    let n = num_keys(d0) as int;
    let x = subtree_kvs(s0, child_id, hp);
    let xn = subtree_kvs_data(sa, dr, hp);
    lemma_kids_wf_elim(s0, d0, h, 0, n, i);
    lemma_kids_wf_narrow(s0, d0, h, 0, n, i);
    lemma_kids_wf_narrow(s0, d0, h, 0, n, i + 1);
    lemma_kids_wf_tail(s0, d0, h, 0, n, i + 1);
    lemma_kids_wf_tail(s0, d0, h, 0, n, i);
    lemma_kids_ranges_disjoint(s0, d0, h, 0, i, i + 1);
    lemma_kids_ranges_disjoint(s0, d0, h, i, i + 1, n);
    lemma_kids_ranges_disjoint(s0, d0, h, 0, i, n);
    lemma_kids_wf_tail(s0, d0, h, 0, i + 1, i);
    lemma_kids_one(s0, d0, h, i);
    lemma_kids_split(s0, d0, h, i, i + 1, n);
    assert(kids_ids(s0, d0, h, 0, i).disjoint(kids_ids(s0, d0, h, i + 1, n))) by {
        assert forall|p: u64| #[trigger] kids_ids(s0, d0, h, 0, i).contains(p) implies !kids_ids(
            s0,
            d0,
            h,
            i + 1,
            n,
        ).contains(p) by {
            if kids_ids(s0, d0, h, i + 1, n).contains(p) {
                assert(kids_ids(s0, d0, h, i, n).contains(p));
            }
        }
    }
    assert(subtree_wf(s0, child_id, hp));
    lemma_subtree_kvs_props(s0, s0[child_id], hp);

                // the sibling windows survive the recursion
                lemma_kids_ids_in_dom(s0, d0, h, 0, i);
                lemma_kids_ids_in_dom(s0, d0, h, i + 1, n);
                lemma_subtree_ids_in_dom(s0, child_id, hp);
                assert forall|pp: u64| #[trigger] kids_ids(s0, d0, h, 0, i).contains(pp) implies
                    sa.contains_key(pp) && sa[pp] == s0[pp] by {
                    assert(s0.contains_key(pp));
                    assert(kids_ids(s0, d0, h, i, i + 1) == subtree_ids(s0, child_id, hp));
                    assert(!subtree_ids(s0, child_id, hp).contains(pp));
                }
                lemma_kids_frame(s0, sa, d0, h, 0, i);
                assert forall|pp: u64| #[trigger] kids_ids(s0, d0, h, i + 1, n).contains(
                    pp,
                ) implies sa.contains_key(pp) && sa[pp] == s0[pp] by {
                    assert(s0.contains_key(pp));
                    assert(kids_ids(s0, d0, h, i, i + 1) == subtree_ids(s0, child_id, hp));
                    assert(!subtree_ids(s0, child_id, hp).contains(pp));
                }
                lemma_kids_frame(s0, sa, d0, h, i + 1, n);
                // the rewritten child's pairs
                assert(xn == kvs_insert(x, k, v));
                lemma_kvs_insert_sorted(x, k, v);
                // the new separator is the rewritten child's smallest key:
                // the old separator when the routed key came at or after it,
                // the inserted key when it came before every key
                lemma_subtree_first_key(sa, dr, hp);
                assert(sep0 == xn[0].0);
                lemma_kvs_insert_first(x, k, v);
                assert(x.len() >= 1 && x[0].0 == key_at(d0, i));
                if routed {
                    lemma_lex_trichotomy(x[0].0, k);
                    assert(sep0 == key_at(d0, i));
                } else {
                    assert(i == 0);
                    lemma_lex_trichotomy(x[0].0, k);
                    assert(sep0 == k);
                }
                assert(kvs_lower_bounded(xn, sep0)) by {
                    assert forall|j: int|
                        0 <= j < xn.len() implies lex_le(sep0, (#[trigger] xn[j]).0) by {
                        if j > 0 {
                            assert(lex_lt(xn[0].0, xn[j].0));
                        }
                    }
                }
                if i + 1 < n {
                    assert(lex_lt(k, key_at(d0, i + 1))) by {
                        if !routed {
                            assert(lex_lt(k, key_at(d0, 0)));
                            assert(lex_lt(key_at(d0, 0), key_at(d0, i + 1)));
                            lemma_lex_lt_trans(k, key_at(d0, 0), key_at(d0, i + 1));
                        }
                    }
                    lemma_kvs_insert_upper(x, k, v, key_at(d0, i + 1));
                }
                if i > 0 {
                    assert(lex_lt(key_at(d0, i - 1), sep0)) by {
                        assert(lex_lt(key_at(d0, i - 1), key_at(d0, i)));
                    }
                }
                // the old child page is nobody else's
                assert(subtree_ids(s0, child_id, hp).contains(child_id));
                assert(!kids_ids(s0, d0, h, 0, i).contains(child_id)) by {
                    assert(kids_ids(s0, d0, h, i, i + 1) == subtree_ids(s0, child_id, hp));
                }
                assert(!kids_ids(s0, d0, h, i + 1, n).contains(child_id)) by {
                    assert(kids_ids(s0, d0, h, i, i + 1) == subtree_ids(s0, child_id, hp));
                }
                assert forall|pp: u64|
                    #[trigger] subtree_ids_data(sa, dr, hp).contains(pp) implies !kids_ids(
                    sa,
                    d0,
                    h,
                    0,
                    i,
                ).contains(pp) && !kids_ids(sa, d0, h, i + 1, n).contains(pp) by {
                    assert(pp != child_id);
                    if subtree_ids(s0, child_id, hp).contains(pp) {
                        assert(kids_ids(s0, d0, h, i, i + 1) == subtree_ids(s0, child_id, hp));
                    } else {
                        assert(!s0.contains_key(pp));
                    }
                }
}

/// Two pieces whose views concatenate to the rewritten child's views carry
/// its windows.
proof fn lemma_two_windows(dr: Seq<u8>, db: Seq<u8>, dc: Seq<u8>)
    requires
        keys_of(db) + keys_of(dc) == keys_of(dr),
        vals_of(db) + vals_of(dc) == vals_of(dr),
        ptrs_of(db) + ptrs_of(dc) == ptrs_of(dr),
    ensures
        num_keys(db) + num_keys(dc) == num_keys(dr),
        keys_of(db) == keys_of(dr).subrange(0, num_keys(db) as int),
        vals_of(db) == vals_of(dr).subrange(0, num_keys(db) as int),
        ptrs_of(db) == ptrs_of(dr).subrange(0, num_keys(db) as int),
        keys_of(dc) == keys_of(dr).subrange(num_keys(db) as int, num_keys(dr) as int),
        vals_of(dc) == vals_of(dr).subrange(num_keys(db) as int, num_keys(dr) as int),
        ptrs_of(dc) == ptrs_of(dr).subrange(num_keys(db) as int, num_keys(dr) as int),
{
    let nb = num_keys(db) as int;
    let nr = num_keys(dr) as int;
    assert(keys_of(db).len() == nb);
    assert((keys_of(db) + keys_of(dc)).len() == nr);
    assert((vals_of(db) + vals_of(dc)).len() == nr);
    assert((ptrs_of(db) + ptrs_of(dc)).len() == nr);
    assert(keys_of(dc).len() == nr - nb);
    assert(vals_of(dc).len() == nr - nb);
    assert(ptrs_of(dc).len() == nr - nb);
    assert(vals_of(db).len() == nb);
    assert(ptrs_of(db).len() == nb);
    assert(keys_of(db) =~= keys_of(dr).subrange(0, nb));
    assert(vals_of(db) =~= vals_of(dr).subrange(0, nb));
    assert(ptrs_of(db) =~= ptrs_of(dr).subrange(0, nb));
    assert forall|m: int| 0 <= m < nr - nb implies #[trigger] keys_of(dc)[m] == keys_of(
        dr,
    ).subrange(nb, nr)[m] && vals_of(dc)[m] == vals_of(dr).subrange(nb, nr)[m] && ptrs_of(
        dc,
    )[m] == ptrs_of(dr).subrange(nb, nr)[m] by {
        assert((keys_of(db) + keys_of(dc))[nb + m] == keys_of(dc)[m]);
        assert((vals_of(db) + vals_of(dc))[nb + m] == vals_of(dc)[m]);
        assert((ptrs_of(db) + ptrs_of(dc))[nb + m] == ptrs_of(dc)[m]);
    }
    assert(keys_of(dc) =~= keys_of(dr).subrange(nb, nr));
    assert(vals_of(dc) =~= vals_of(dr).subrange(nb, nr));
    assert(ptrs_of(dc) =~= ptrs_of(dr).subrange(nb, nr));
}

/// Three pieces whose views concatenate to the rewritten child's views
/// carry its windows.
proof fn lemma_three_windows(dr: Seq<u8>, da: Seq<u8>, db: Seq<u8>, dc: Seq<u8>)
    requires
        keys_of(da) + keys_of(db) + keys_of(dc) == keys_of(dr),
        vals_of(da) + vals_of(db) + vals_of(dc) == vals_of(dr),
        ptrs_of(da) + ptrs_of(db) + ptrs_of(dc) == ptrs_of(dr),
    ensures
        num_keys(da) + num_keys(db) + num_keys(dc) == num_keys(dr),
        keys_of(da) == keys_of(dr).subrange(0, num_keys(da) as int),
        vals_of(da) == vals_of(dr).subrange(0, num_keys(da) as int),
        ptrs_of(da) == ptrs_of(dr).subrange(0, num_keys(da) as int),
        keys_of(db) == keys_of(dr).subrange(
            num_keys(da) as int,
            num_keys(da) + num_keys(db) as int,
        ),
        vals_of(db) == vals_of(dr).subrange(
            num_keys(da) as int,
            num_keys(da) + num_keys(db) as int,
        ),
        ptrs_of(db) == ptrs_of(dr).subrange(
            num_keys(da) as int,
            num_keys(da) + num_keys(db) as int,
        ),
        keys_of(dc) == keys_of(dr).subrange(
            num_keys(da) + num_keys(db) as int,
            num_keys(dr) as int,
        ),
        vals_of(dc) == vals_of(dr).subrange(
            num_keys(da) + num_keys(db) as int,
            num_keys(dr) as int,
        ),
        ptrs_of(dc) == ptrs_of(dr).subrange(
            num_keys(da) + num_keys(db) as int,
            num_keys(dr) as int,
        ),
{
    let na = num_keys(da) as int;
    let nb = num_keys(db) as int;
    let nr = num_keys(dr) as int;
    assert(keys_of(da).len() == na && keys_of(db).len() == nb);
    assert(vals_of(da).len() == na && vals_of(db).len() == nb);
    assert(ptrs_of(da).len() == na && ptrs_of(db).len() == nb);
    assert((keys_of(da) + keys_of(db) + keys_of(dc)).len() == nr);
    assert((vals_of(da) + vals_of(db) + vals_of(dc)).len() == nr);
    assert((ptrs_of(da) + ptrs_of(db) + ptrs_of(dc)).len() == nr);
    assert(keys_of(dc).len() == nr - na - nb);
    assert(vals_of(dc).len() == nr - na - nb);
    assert(ptrs_of(dc).len() == nr - na - nb);
    assert(keys_of(da) =~= keys_of(dr).subrange(0, na));
    assert(vals_of(da) =~= vals_of(dr).subrange(0, na));
    assert(ptrs_of(da) =~= ptrs_of(dr).subrange(0, na));
    assert(keys_of(db) =~= keys_of(dr).subrange(na, na + nb));
    assert(vals_of(db) =~= vals_of(dr).subrange(na, na + nb));
    assert(ptrs_of(db) =~= ptrs_of(dr).subrange(na, na + nb));
    assert forall|m: int| 0 <= m < nr - na - nb implies #[trigger] keys_of(dc)[m] == keys_of(
        dr,
    ).subrange(na + nb, nr)[m] && vals_of(dc)[m] == vals_of(dr).subrange(na + nb, nr)[m]
        && ptrs_of(dc)[m] == ptrs_of(dr).subrange(na + nb, nr)[m] by {
        assert((keys_of(da) + keys_of(db)).len() == na + nb);
        assert((vals_of(da) + vals_of(db)).len() == na + nb);
        assert((ptrs_of(da) + ptrs_of(db)).len() == na + nb);
        assert((keys_of(da) + keys_of(db) + keys_of(dc)).len() == nr);
        assert(keys_of(dc).len() == nr - na - nb);
        assert(vals_of(dc).len() == nr - na - nb);
        assert(ptrs_of(dc).len() == nr - na - nb);
        assert(keys_of(dr) == (keys_of(da) + keys_of(db)) + keys_of(dc));
        assert(vals_of(dr) == (vals_of(da) + vals_of(db)) + vals_of(dc));
        assert(ptrs_of(dr) == (ptrs_of(da) + ptrs_of(db)) + ptrs_of(dc));
        assert(keys_of(dr)[na + nb + m] == keys_of(dc)[m]);
        assert(vals_of(dr)[na + nb + m] == vals_of(dc)[m]);
        assert(ptrs_of(dr)[na + nb + m] == ptrs_of(dc)[m]);
    }
    assert(keys_of(dc) =~= keys_of(dr).subrange(na + nb, nr));
    assert(vals_of(dc) =~= vals_of(dr).subrange(na + nb, nr));
    assert(ptrs_of(dc) =~= ptrs_of(dr).subrange(na + nb, nr));
}

/// The rebuilt parent, entry for entry: entries before `i` copied from the
/// old node unchanged; one entry per replacement piece, its separator key
/// the piece's first (minimum) key, its value empty, its pointer a freshly
/// allocated page holding exactly that piece's bytes; the old entries after
/// the replaced child copied unchanged behind them.
#[verifier::opaque]
pub open spec fn rebuilt_entries(
    sa: Map<u64, Seq<u8>>,
    sf: Map<u64, Seq<u8>>,
    d0: Seq<u8>,
    dn: Seq<u8>,
    i: int,
    pieces: Seq<BNode>,
) -> bool {
    let count = pieces.len() as int;
    let n = num_keys(d0) as int;
    &&& (forall|j: int|
        0 <= j < i ==> #[trigger] key_at(dn, j) == key_at(d0, j) && val_at(dn, j) == val_at(d0, j)
            && ptr_at(dn, j) == ptr_at(d0, j))
    &&& (forall|j: int|
        i <= j < i + count ==> #[trigger] key_at(dn, j) == key_at(pieces[j - i]@, 0) && val_at(
            dn,
            j,
        ) == Seq::<u8>::empty() && sf.contains_key(ptr_u64(dn, j)) && sf[ptr_u64(dn, j)]
            == pieces[j - i]@ && !sa.contains_key(ptr_u64(dn, j)))
    &&& (forall|j: int|
        i + count <= j < n + count - 1 ==> #[trigger] key_at(dn, j) == key_at(d0, j - count + 1)
            && val_at(dn, j) == val_at(d0, j - count + 1) && ptr_at(dn, j) == ptr_at(
            d0,
            j - count + 1,
        ))
}

/// Seals the entry-for-entry reading of the rebuilt parent from the copied
/// windows, the loop's outcome and the stored pieces.
#[verifier::rlimit(100)]
#[verifier::spinoff_prover]
proof fn lemma_rebuild_entries_seal(
    sa: Map<u64, Seq<u8>>,
    sf: Map<u64, Seq<u8>>,
    d0: Seq<u8>,
    dpre: Seq<u8>,
    dn: Seq<u8>,
    i: int,
    count: int,
    pids: Seq<u64>,
    pbytes: Seq<Seq<u8>>,
    pieces0: Seq<BNode>,
)
    requires
        0 <= i < num_keys(d0),
        1 <= count,
        pids.len() == count,
        pbytes.len() == count,
        pieces0.len() == count,
        num_keys(dpre) == num_keys(d0) + count - 1,
        num_keys(dn) == num_keys(d0) + count - 1,
        keys_of(dpre).subrange(0, i) == keys_of(d0).subrange(0, i),
        vals_of(dpre).subrange(0, i) == vals_of(d0).subrange(0, i),
        ptrs_of(dpre).subrange(0, i) == ptrs_of(d0).subrange(0, i),
        forall|m: int|
            i <= m < i + count ==> #[trigger] key_at(dpre, m) == key_at(pbytes[m - i], 0)
                && val_at(dpre, m) == Seq::<u8>::empty() && ptr_at(dpre, m) == pids[m - i] as nat,
        keys_of(dn).subrange(0, i + count) == keys_of(dpre).subrange(0, i + count),
        vals_of(dn).subrange(0, i + count) == vals_of(dpre).subrange(0, i + count),
        ptrs_of(dn).subrange(0, i + count) == ptrs_of(dpre).subrange(0, i + count),
        keys_of(dn).subrange(i + count, num_keys(dn) as int) == keys_of(d0).subrange(
            i + 1,
            num_keys(d0) as int,
        ),
        vals_of(dn).subrange(i + count, num_keys(dn) as int) == vals_of(d0).subrange(
            i + 1,
            num_keys(d0) as int,
        ),
        ptrs_of(dn).subrange(i + count, num_keys(dn) as int) == ptrs_of(d0).subrange(
            i + 1,
            num_keys(d0) as int,
        ),
        forall|j: int| 0 <= j < count ==> #[trigger] pbytes[j] == pieces0[j]@,
        forall|j: int|
            0 <= j < count ==> sf.contains_key(#[trigger] pids[j]) && sf[pids[j]] == pbytes[j]
                && !sa.contains_key(pids[j]),
    ensures
        rebuilt_entries(sa, sf, d0, dn, i, pieces0),
{
    reveal(rebuilt_entries);
    lemma_pack_prefix(d0, dpre, dn, i, count);
    lemma_pack_mid(dpre, dn, i, count, pids, pbytes);
    lemma_pack_suffix(d0, dn, i, count);
    lemma_rebuilt_pieces_stored(dn, i, count, pids, pbytes, pieces0, Seq::empty(), sa, sf);
}

/// The rebuilt node's per-piece entries, read back through its pointers:
/// each entry's page id is live in the final store and holds that piece's
/// bytes, and was not live before the rebuild.
#[verifier::spinoff_prover]
proof fn lemma_rebuilt_pieces_stored(
    dn: Seq<u8>,
    i: int,
    count: int,
    pids: Seq<u64>,
    pbytes: Seq<Seq<u8>>,
    pieces0: Seq<BNode>,
    sep0: Seq<u8>,
    sa: Map<u64, Seq<u8>>,
    sf: Map<u64, Seq<u8>>,
)
    requires
        0 <= i,
        1 <= count,
        pids.len() == count,
        pbytes.len() == count,
        pieces0.len() == count,
        forall|j: int| 0 <= j < count ==> #[trigger] pbytes[j] == pieces0[j]@,
        forall|j: int|
            0 <= j < count ==> sf.contains_key(#[trigger] pids[j]) && sf[pids[j]] == pbytes[j]
                && !sa.contains_key(pids[j]),
        forall|j: int|
            i <= j < i + count ==> #[trigger] key_at(dn, j) == key_at(pbytes[j - i], 0) && val_at(
                dn,
                j,
            ) == Seq::<u8>::empty() && ptr_at(dn, j) == pids[j - i] as nat,
    ensures
        forall|j: int|
            i <= j < i + count ==> #[trigger] key_at(dn, j) == key_at(pieces0[j - i]@, 0)
                && val_at(dn, j) == Seq::<u8>::empty() && sf.contains_key(ptr_u64(dn, j)) && sf[
                ptr_u64(dn, j)
            ] == pieces0[j - i]@ && !sa.contains_key(ptr_u64(dn, j)),
{
    assert forall|j: int|
        i <= j < i + count implies #[trigger] key_at(dn, j) == key_at(pieces0[j - i]@, 0)
        && val_at(dn, j) == Seq::<u8>::empty() && sf.contains_key(ptr_u64(dn, j)) && sf[
        ptr_u64(dn, j)
    ] == pieces0[j - i]@ && !sa.contains_key(ptr_u64(dn, j)) by {
        assert(key_at(dn, j) == key_at(pbytes[j - i], 0));
        assert(ptr_at(dn, j) == pids[j - i] as nat);
        assert(ptr_u64(dn, j) == pids[j - i]);
        assert(pbytes[j - i] == pieces0[j - i]@);
    }
}

/// Copies a byte slice into an owned vector.
fn copy_bytes(src: &[u8]) -> (r: Vec<u8>)
    ensures
        r@ == src@,
{
    let n = src.len();
    let mut v: Vec<u8> = Vec::new();
    let mut i: usize = 0;
    while i < n
        invariant
            0 <= i <= n,
            n == src@.len(),
            v@ == src@.subrange(0, i as int),
        decreases n - i,
    {
        v.push(src[i]);
        proof {
            assert(v@ =~= src@.subrange(0, i + 1));
        }
        i = i + 1;
    }
    proof {
        assert(src@.subrange(0, n as int) =~= src@);
    }
    v
}

/// The key-value pairs a vector of owned pairs stands for.
pub open spec fn pairs_view(s: Seq<(Vec<u8>, Vec<u8>)>) -> KvList {
    Seq::new(s.len(), |i: int| (s[i].0@, s[i].1@))
}

/// The copy-on-write B-tree: a page store and the current root page id. An
/// empty tree has no root page; the first insert creates one.
pub struct BTree {
    store: PageStore,
    root: Option<u64>,
    height: Ghost<nat>,
}

impl BTree {

    /// Rebuilds an internal node around the 1-3 pieces that replace one
    /// routed child: entries before the child are copied, one entry per
    /// piece is written (the first under `sep0`, the rest under their own
    /// first key), the remaining entries are copied, and the superseded
    /// child page is freed.

    /// Writes the rebuilt parent's bytes: the entries before the child
    /// copied, one entry per piece under the piece's first key with the
    /// piece freshly stored, and the old entries after the child copied
    /// behind them. Hands back the node with the written page ids and
    /// bytes and the state before the suffix copy.
    #[verifier::rlimit(100)]
    #[verifier::spinoff_prover]
    #[verifier::loop_isolation(true)]
    fn rebuild_write(
        &mut self,
        node: &BNode,
        i16: u16,
        sep0: &Vec<u8>,
        pieces: Vec<BNode>,
        Ghost(dr): Ghost<Seq<u8>>,
        Ghost(cuts): Ghost<Seq<int>>,
    ) -> (r: (BNode, Ghost<Seq<u64>>, Ghost<Seq<Seq<u8>>>, Ghost<Seq<u8>>))
        requires
            ({
                let sa = old(self).store@;
                let d0 = node@;
                let i = i16 as int;
                let n = num_keys(d0) as int;
                let count = pieces@.len() as int;
                &&& node_wf(d0)
                &&& node_size(d0) <= BTREE_PAGE_SIZE as int
                &&& 0 <= i < n
                &&& node_wf(dr)
                &&& entries_fit(dr)
                &&& 1 <= num_keys(dr)
                &&& 1 <= count <= 3
                &&& cuts.len() == count + 1
                &&& cuts[0] == 0
                &&& cuts[count] == num_keys(dr)
                &&& (forall|j: int| 0 <= j < count ==> #[trigger] cuts[j] < cuts[j + 1])
                &&& (forall|j: int|
                    0 <= j < count ==> node_wf(#[trigger] pieces@[j]@) && node_size(pieces@[j]@)
                        <= BTREE_PAGE_SIZE as int && node_kind(pieces@[j]@) == node_kind(dr)
                        && num_keys(pieces@[j]@) == cuts[j + 1] - cuts[j] && 1 <= num_keys(
                        pieces@[j]@,
                    ))
                &&& (forall|j: int|
                    0 <= j < count ==> keys_of(#[trigger] pieces@[j]@) == keys_of(dr).subrange(
                        cuts[j],
                        cuts[j + 1],
                    ) && vals_of(pieces@[j]@) == vals_of(dr).subrange(cuts[j], cuts[j + 1])
                        && ptrs_of(pieces@[j]@) == ptrs_of(dr).subrange(cuts[j], cuts[j + 1]))
                &&& sep0@.len() <= BTREE_MAX_KEY_SIZE
                &&& sep0@ == key_at(dr, 0)
            }),
        ensures
            ({
                let sa = old(self).store@;
                let sm = final(self).store@;
                let d0 = node@;
                let i = i16 as int;
                let n = num_keys(d0) as int;
                let count = pieces@.len() as int;
                let ntot = n + count - 1;
                let dn = r.0@;
                let pids = r.1@;
                let pbytes = r.2@;
                let dpre = r.3@;
                &&& final(self).root == old(self).root
                &&& final(self).height == old(self).height
                &&& (forall|p: u64|
                    #![trigger sa.contains_key(p)]
                    sa.contains_key(p) ==> sm.contains_key(p) && sm[p] == sa[p])
                &&& pids.len() == count
                &&& pbytes.len() == count
                &&& (forall|j: int| 0 <= j < count ==> #[trigger] pbytes[j] == pieces@[j]@)
                &&& (forall|j: int|
                    0 <= j < count ==> sm.contains_key(#[trigger] pids[j]) && sm[pids[j]]
                        == pbytes[j] && !sa.contains_key(pids[j]))
                &&& (forall|j1: int, j2: int|
                    0 <= j1 < j2 < count ==> (#[trigger] pids[j1]) != (#[trigger] pids[j2]))
                &&& dn.len() == 2 * BTREE_PAGE_SIZE - 4
                &&& num_keys(dn) == ntot
                &&& node_kind(dn) == BNODE_INTERNAL as nat
                &&& wf_upto(dn, ntot)
                &&& kv_pos(dn, ntot) <= dn.len()
                &&& num_keys(dpre) == ntot
                &&& node_kind(dpre) == BNODE_INTERNAL as nat
                &&& keys_of(dpre).subrange(0, i) == keys_of(d0).subrange(0, i)
                &&& vals_of(dpre).subrange(0, i) == vals_of(d0).subrange(0, i)
                &&& ptrs_of(dpre).subrange(0, i) == ptrs_of(d0).subrange(0, i)
                &&& (forall|m: int|
                    i <= m < i + count ==> #[trigger] key_at(dpre, m) == key_at(
                        pieces@[m - i]@,
                        0,
                    ) && val_at(dpre, m) == Seq::<u8>::empty() && ptr_at(dpre, m) == pids[m
                        - i] as nat)
                &&& keys_of(dn).subrange(0, i + count) == keys_of(dpre).subrange(0, i + count)
                &&& vals_of(dn).subrange(0, i + count) == vals_of(dpre).subrange(0, i + count)
                &&& ptrs_of(dn).subrange(0, i + count) == ptrs_of(dpre).subrange(0, i + count)
                &&& keys_of(dn).subrange(i + count, ntot) == keys_of(d0).subrange(i + 1, n)
                &&& vals_of(dn).subrange(i + count, ntot) == vals_of(d0).subrange(i + 1, n)
                &&& ptrs_of(dn).subrange(i + count, ntot) == ptrs_of(d0).subrange(i + 1, n)
            }),
    {
        let ghost sa = self.store@;
        let ghost d0 = node@;
        let ghost i = i16 as int;
        let n16 = node.n_keys();
        let ghost n = num_keys(d0) as int;
        let count_us = pieces.len();
        let count16 = count_us as u16;
        let ghost count = pieces@.len() as int;
        let ghost pieces0 = pieces@;
        proof {
            assert(4 + 10 * n + off_at(d0, n) <= BTREE_PAGE_SIZE as int);
            assert(n <= 409);
            lemma_off_monotonic(d0, 0, i);
            lemma_off_monotonic(d0, i + 1, n);
            assert(entry_wf(d0, i));
        }
        let ntot16 = n16 + count16 - 1;
        let mut newn = BNode::zeroed(2 * BTREE_PAGE_SIZE - 4);
        newn.set_header(BNODE_INTERNAL, ntot16);
        proof {
            assert(wf_upto(newn@, 0));
        }
        newn.append_range(node, 0, 0, i16);
        let ghost s_pre = self.store@;
        let empty_val: Vec<u8> = Vec::new();
        let ghost mut pids: Seq<u64> = Seq::empty();
        let ghost mut pbytes: Seq<Seq<u8>> = Seq::empty();
        proof {
            assert forall|jj: int|
                0 <= jj < count implies key_len(#[trigger] pieces0[jj]@, 0)
                <= BTREE_MAX_KEY_SIZE as nat by {
                lemma_cuts_monotone(cuts, count, 0, jj);
                lemma_cuts_monotone(cuts, count, jj + 1, count);
                assert(keys_of(pieces0[jj]@)[0] == keys_of(dr).subrange(cuts[jj], cuts[jj + 1])[0]);
                lemma_record_in_bounds(pieces0[jj]@, 0);
                lemma_record_in_bounds(dr, cuts[jj]);
                assert(key_at(pieces0[jj]@, 0).len() == key_len(pieces0[jj]@, 0));
                assert(key_at(dr, cuts[jj]).len() == key_len(dr, cuts[jj]));
                assert(key_len(dr, cuts[jj]) <= BTREE_MAX_KEY_SIZE as nat);
            }
            assert(key_at(pieces0[0]@, 0) == sep0@) by {
                lemma_cuts_monotone(cuts, count, 1, count);
                assert(keys_of(pieces0[0]@)[0] == keys_of(dr).subrange(cuts[0], cuts[1])[0]);
            }
        }
        let mut rest = pieces;
        let mut j: usize = 0;
        while j < count_us
            invariant
                0 <= j <= count_us,
                count_us == count,
                1 <= count <= 3,
                rest@ =~= pieces0.skip(j as int),
                pieces0.len() == count,
                sep0@.len() <= BTREE_MAX_KEY_SIZE,
                empty_val@.len() == 0,
                i16 as int == i,
                forall|jj: int|
                    0 <= jj < count ==> node_wf(#[trigger] pieces0[jj]@) && 1 <= num_keys(
                        pieces0[jj]@,
                    ) && node_size(pieces0[jj]@) <= BTREE_PAGE_SIZE as int,
                // the parent under construction
                newn@.len() == 2 * BTREE_PAGE_SIZE - 4,
                num_keys(newn@) == n + count - 1,
                node_kind(newn@) == BNODE_INTERNAL as nat,
                i + count - 1 <= n + count - 1,
                0 <= i < n,
                n == num_keys(d0) as int,
                n <= 409,
                wf_upto(newn@, i + j),
                keys_of(newn@).subrange(0, i) == keys_of(d0).subrange(0, i),
                vals_of(newn@).subrange(0, i) == vals_of(d0).subrange(0, i),
                ptrs_of(newn@).subrange(0, i) == ptrs_of(d0).subrange(0, i),
                off_at(newn@, i + j) <= off_at(d0, i) + j * 1004,
                off_at(d0, i) <= off_at(d0, n),
                4 + 10 * n + off_at(d0, n) <= BTREE_PAGE_SIZE as int,
                // the pieces written so far
                pids.len() == j,
                pbytes.len() == j,
                forall|jj: int| 0 <= jj < j ==> #[trigger] pbytes[jj] == pieces0[jj]@,
                forall|jj: int|
                    0 <= jj < j ==> self.store@.contains_key(#[trigger] pids[jj]) && self.store@[
                        pids[jj]
                    ] == pbytes[jj] && !sa.contains_key(pids[jj]),
                forall|j1: int, j2: int|
                    0 <= j1 < j2 < j ==> (#[trigger] pids[j1]) != (#[trigger] pids[j2]),
                forall|m: int|
                    i <= m < i + j ==> #[trigger] key_at(newn@, m) == key_at(pieces0[m - i]@, 0)
                        && val_at(newn@, m) == Seq::<u8>::empty() && ptr_at(newn@, m) == pids[m
                        - i] as nat,
                forall|jj: int|
                    0 <= jj < count ==> key_len(#[trigger] pieces0[jj]@, 0)
                        <= BTREE_MAX_KEY_SIZE as nat,
                // the store only grows here; root and height stand
                self.root == old(self).root,
                self.height == old(self).height,
                forall|p: u64|
                    #![trigger sa.contains_key(p)]
                    sa.contains_key(p) ==> self.store@.contains_key(p) && self.store@[p] == sa[p],
            decreases count_us - j,
        {
            let piece = rest.remove(0);
            proof {
                assert(piece@ == pieces0[j as int]@);
                assert(rest@ =~= pieces0.skip(j as int + 1));
            }
            proof {
                lemma_record_in_bounds(piece@, 0);
            }
            let sep: Vec<u8> = copy_bytes(piece.get_key(0));
            proof {
                assert(sep@.len() == key_len(pieces0[j as int]@, 0)) by {
                    assert(key_at(piece@, 0).len() == key_len(piece@, 0));
                }
                assert(sep@.len() <= BTREE_MAX_KEY_SIZE);
                assert(can_append(newn@, i + j, sep@, Seq::<u8>::empty())) by {
                    assert(off_at(newn@, i + j) + 4 + sep@.len() <= off_at(d0, i) + (j + 1) * 1004);
                    assert(off_at(d0, i) + (j + 1) * 1004 <= 4092 + 3 * 1004);
                    assert(kv_pos(newn@, i + j) == 4 + 10 * (n + count - 1) + off_at(
                        newn@,
                        i + j,
                    ));
                }
            }
            let ghost db = piece@;
            let ghost s_before = self.store@;
            let pid = self.store.allocate(piece.into_data());
            let dst16: u16 = i16 + (j as u16);
            let sep_sl = sep.as_slice();
            let emp_sl = empty_val.as_slice();
            proof {
                assert(dst16 as int == i + j);
                assert(sep_sl@ == sep@);
                assert(emp_sl@ =~= Seq::<u8>::empty());
                assert(can_append(newn@, dst16 as int, sep_sl@, emp_sl@));
            }
            let ghost prev_new = newn@;
            newn.append_key_value(dst16, pid, sep_sl, emp_sl);
            proof {
                pids = pids.push(pid);
                pbytes = pbytes.push(db);
                lemma_views_prefix(prev_new, newn@, i);
                assert(keys_of(newn@).subrange(0, i) == keys_of(d0).subrange(0, i));
                assert forall|m: int|
                    i <= m < i + j + 1 implies #[trigger] key_at(newn@, m) == key_at(
                    pieces0[m - i]@,
                    0,
                ) && val_at(newn@, m) == Seq::<u8>::empty() && ptr_at(newn@, m) == pids[m
                    - i] as nat by {
                    let jj = m - i;
                    if jj < j {
                        assert(entry_eq(newn@, m, prev_new, m));
                        assert(key_at(prev_new, m) == key_at(pieces0[m - i]@, 0));
                    } else {
                        assert(m == i + j);
                        assert(key_at(newn@, m) == sep@);
                        assert(sep@ == key_at(pieces0[m - i]@, 0));
                        assert(val_at(newn@, m) == emp_sl@);
                        assert(emp_sl@ =~= Seq::<u8>::empty());
                        assert(ptr_at(newn@, m) == pid as nat);
                    }
                }
                assert forall|p: u64|
                    #![trigger sa.contains_key(p)]
                    sa.contains_key(p) implies self.store@.contains_key(p) && self.store@[p]
                    == sa[p] by {
                    assert(s_before.contains_key(p) && s_before[p] == sa[p]);
                    assert(p != pid);
                }
                assert forall|jj: int|
                    0 <= jj < j + 1 implies self.store@.contains_key(#[trigger] pids[jj])
                    && self.store@[pids[jj]] == pbytes[jj] && !sa.contains_key(pids[jj]) by {
                    if jj < j {
                        assert(s_before.contains_key(pids[jj]));
                        assert(pids[jj] != pid);
                        assert(self.store@ == s_before.insert(pid, db));
                    } else {
                        assert(pids[jj] == pid);
                    }
                }
            }
            j = j + 1;
        }
        proof {
            lemma_off_monotonic(d0, i, i + 1);
        }
        let ghost pre_suffix = newn@;
        newn.append_range(node, i16 + count16, i16 + 1, n16 - i16 - 1);
        (newn, Ghost(pids), Ghost(pbytes), Ghost(pre_suffix))
    }

    /// Seals the rebuilt parent: from the written node, the stored pieces
    /// and the freed child page, the node is a consistent internal node over
    /// the spliced content, entry for entry.
    #[verifier::rlimit(100)]
    #[verifier::spinoff_prover]
    proof fn lemma_rebuild_finish(
        sa: Map<u64, Seq<u8>>,
        sm: Map<u64, Seq<u8>>,
        sf: Map<u64, Seq<u8>>,
        d0: Seq<u8>,
        dpre: Seq<u8>,
        dn: Seq<u8>,
        dr: Seq<u8>,
        h: nat,
        i: int,
        count: int,
        pids: Seq<u64>,
        pbytes: Seq<Seq<u8>>,
        pieces0: Seq<BNode>,
        cuts: Seq<int>,
        sep0: Seq<u8>,
        child_id: u64,
    )
        requires
            ({
                let hp = (h - 1) as nat;
                let n = num_keys(d0) as int;
                let ntot = n + count - 1;
                &&& h >= 1
                &&& node_ok(d0, h)
                &&& node_size(d0) <= BTREE_PAGE_SIZE as int
                &&& 0 <= i < n
                &&& kids_wf(sa, d0, h, 0, i)
                &&& kids_wf(sa, d0, h, i + 1, n)
                &&& kids_ids(sa, d0, h, 0, i).disjoint(kids_ids(sa, d0, h, i + 1, n))
                &&& subtree_wf_data(sa, dr, hp)
                &&& 1 <= count <= 3
                &&& cuts.len() == count + 1
                &&& cuts[0] == 0
                &&& cuts[count] == num_keys(dr)
                &&& (forall|j: int| 0 <= j < count ==> #[trigger] cuts[j] < cuts[j + 1])
                &&& pieces0.len() == count
                &&& pids.len() == count
                &&& pbytes.len() == count
                &&& (forall|j: int| 0 <= j < count ==> #[trigger] pbytes[j] == pieces0[j]@)
                &&& (forall|j: int|
                    0 <= j < count ==> node_wf(#[trigger] pbytes[j]) && node_size(pbytes[j])
                        <= BTREE_PAGE_SIZE as int && node_kind(pbytes[j]) == node_kind(dr)
                        && num_keys(pbytes[j]) == cuts[j + 1] - cuts[j] && 1 <= num_keys(
                        pbytes[j],
                    ))
                &&& (forall|j: int|
                    0 <= j < count ==> keys_of(#[trigger] pbytes[j]) == keys_of(dr).subrange(
                        cuts[j],
                        cuts[j + 1],
                    ) && vals_of(pbytes[j]) == vals_of(dr).subrange(cuts[j], cuts[j + 1])
                        && ptrs_of(pbytes[j]) == ptrs_of(dr).subrange(cuts[j], cuts[j + 1]))
                &&& sep0.len() <= BTREE_MAX_KEY_SIZE
                &&& sep0 == key_at(dr, 0)
                &&& (1 <= i ==> lex_le(key_at(d0, i), sep0))
                &&& (i > 0 ==> lex_lt(key_at(d0, i - 1), sep0))
                &&& (i + 1 < n ==> kvs_upper_bounded(
                    subtree_kvs_data(sa, dr, hp),
                    key_at(d0, i + 1),
                ))
                &&& sa.contains_key(child_id)
                &&& !kids_ids(sa, d0, h, 0, i).contains(child_id)
                &&& !kids_ids(sa, d0, h, i + 1, n).contains(child_id)
                &&& !subtree_ids_data(sa, dr, hp).contains(child_id)
                &&& (forall|p: u64|
                    #[trigger] subtree_ids_data(sa, dr, hp).contains(p) ==> !kids_ids(
                        sa,
                        d0,
                        h,
                        0,
                        i,
                    ).contains(p) && !kids_ids(sa, d0, h, i + 1, n).contains(p))
                &&& (forall|p: u64|
                    #![trigger sa.contains_key(p)]
                    sa.contains_key(p) ==> sm.contains_key(p) && sm[p] == sa[p])
                &&& (forall|j: int|
                    0 <= j < count ==> sm.contains_key(#[trigger] pids[j]) && sm[pids[j]]
                        == pbytes[j] && !sa.contains_key(pids[j]))
                &&& (forall|j1: int, j2: int|
                    0 <= j1 < j2 < count ==> (#[trigger] pids[j1]) != (#[trigger] pids[j2]))
                &&& dn.len() == 2 * BTREE_PAGE_SIZE - 4
                &&& num_keys(dn) == ntot
                &&& node_kind(dn) == BNODE_INTERNAL as nat
                &&& wf_upto(dn, ntot)
                &&& kv_pos(dn, ntot) <= dn.len()
                &&& num_keys(dpre) == ntot
                &&& node_kind(dpre) == BNODE_INTERNAL as nat
                &&& keys_of(dpre).subrange(0, i) == keys_of(d0).subrange(0, i)
                &&& vals_of(dpre).subrange(0, i) == vals_of(d0).subrange(0, i)
                &&& ptrs_of(dpre).subrange(0, i) == ptrs_of(d0).subrange(0, i)
                &&& (forall|m: int|
                    i <= m < i + count ==> #[trigger] key_at(dpre, m) == key_at(
                        pieces0[m - i]@,
                        0,
                    ) && val_at(dpre, m) == Seq::<u8>::empty() && ptr_at(dpre, m) == pids[m
                        - i] as nat)
                &&& keys_of(dn).subrange(0, i + count) == keys_of(dpre).subrange(0, i + count)
                &&& vals_of(dn).subrange(0, i + count) == vals_of(dpre).subrange(0, i + count)
                &&& ptrs_of(dn).subrange(0, i + count) == ptrs_of(dpre).subrange(0, i + count)
                &&& keys_of(dn).subrange(i + count, ntot) == keys_of(d0).subrange(i + 1, n)
                &&& vals_of(dn).subrange(i + count, ntot) == vals_of(d0).subrange(i + 1, n)
                &&& ptrs_of(dn).subrange(i + count, ntot) == ptrs_of(d0).subrange(i + 1, n)
                &&& sf == sm.remove(child_id)
            }),
        ensures
            ({
                let hp = (h - 1) as nat;
                let n = num_keys(d0) as int;
                &&& subtree_wf_data(sf, dn, h)
                &&& num_keys(dn) == n + count - 1
                &&& node_size(dn) <= 2 * BTREE_PAGE_SIZE as int - 4
                &&& subtree_kvs_data(sf, dn, h) == kids_kvs(sa, d0, h, 0, i) + (subtree_kvs_data(
                    sa,
                    dr,
                    hp,
                ) + kids_kvs(sa, d0, h, i + 1, n))
                &&& (forall|p: u64|
                    #![trigger sa.contains_key(p)]
                    sa.contains_key(p) && p != child_id ==> sf.contains_key(p) && sf[p] == sa[p])
                &&& !sf.contains_key(child_id)
                &&& (forall|p: u64|
                    #[trigger] subtree_ids_data(sf, dn, h).contains(p) ==> kids_ids(
                        sa,
                        d0,
                        h,
                        0,
                        i,
                    ).contains(p) || kids_ids(sa, d0, h, i + 1, n).contains(p)
                        || subtree_ids_data(sa, dr, hp).contains(p) || !sa.contains_key(p))
                &&& key_at(dn, i) == sep0
                &&& rebuilt_entries(sa, sf, d0, dn, i, pieces0)
            }),
    {
        let hp = (h - 1) as nat;
        let n = num_keys(d0) as int;
        assert forall|p: u64|
            #![trigger sa.contains_key(p)]
            sa.contains_key(p) && p != child_id implies sf.contains_key(p) && sf[p] == sa[p] by {
            assert(sm.contains_key(p) && sm[p] == sa[p]);
        }
        assert(preserved_except(sa, sf, child_id));
        assert forall|jj: int|
            0 <= jj < count implies sf.contains_key(#[trigger] pids[jj]) && sf[pids[jj]]
            == pbytes[jj] && !sa.contains_key(pids[jj]) by {
            assert(sm.contains_key(pids[jj]) && sm[pids[jj]] == pbytes[jj]);
            assert(pids[jj] != child_id);
        }
        assert forall|m: int|
            i <= m < i + count implies #[trigger] key_at(dpre, m) == key_at(pbytes[m - i], 0)
            && val_at(dpre, m) == Seq::<u8>::empty() && ptr_at(dpre, m) == pids[m - i] as nat by {
            assert(key_at(dpre, m) == key_at(pieces0[m - i]@, 0));
            assert(pbytes[m - i] == pieces0[m - i]@);
        }
        assert(key_at(pbytes[0], 0) == sep0) by {
            assert(pbytes[0] == pieces0[0]@);
            lemma_cuts_monotone(cuts, count, 1, count);
            assert(keys_of(pieces0[0]@)[0] == keys_of(dr).subrange(cuts[0], cuts[1])[0]);
        }
        lemma_rebuild_pack(
            sa,
            sf,
            d0,
            dpre,
            dn,
            dr,
            h,
            i,
            count,
            pids,
            pbytes,
            cuts,
            sep0,
            child_id,
        );
        lemma_rebuild_entries_seal(sa, sf, d0, dpre, dn, i, count, pids, pbytes, pieces0);
    }

    /// Rebuilds an internal node around the 1-3 pieces that replace one
    /// routed child: entries before the child are copied, one entry per
    /// piece is written under the piece's minimum key at a freshly
    /// allocated page, the remaining entries are copied, and the superseded
    /// child page is freed.
    #[verifier::rlimit(100)]
    #[verifier::spinoff_prover]
    #[verifier::loop_isolation(true)]
    fn rebuild_parent(
        &mut self,
        node: &BNode,
        i16: u16,
        sep0: &Vec<u8>,
        pieces: Vec<BNode>,
        child_id: u64,
        Ghost(h): Ghost<nat>,
        Ghost(dr): Ghost<Seq<u8>>,
        Ghost(cuts): Ghost<Seq<int>>,
    ) -> (r: BNode)
        requires
            ({
                let sa = old(self).store@;
                let d0 = node@;
                let i = i16 as int;
                let n = num_keys(d0) as int;
                let hp = (h - 1) as nat;
                let count = pieces@.len() as int;
                &&& h >= 1
                &&& node_ok(d0, h)
                &&& node_size(d0) <= BTREE_PAGE_SIZE as int
                &&& 0 <= i < n
                &&& kids_wf(sa, d0, h, 0, i)
                &&& kids_wf(sa, d0, h, i + 1, n)
                &&& kids_ids(sa, d0, h, 0, i).disjoint(kids_ids(sa, d0, h, i + 1, n))
                &&& subtree_wf_data(sa, dr, hp)
                &&& 1 <= count <= 3
                &&& cuts.len() == count + 1
                &&& cuts[0] == 0
                &&& cuts[count] == num_keys(dr)
                &&& (forall|j: int| 0 <= j < count ==> #[trigger] cuts[j] < cuts[j + 1])
                &&& (forall|j: int|
                    0 <= j < count ==> node_wf(#[trigger] pieces@[j]@) && node_size(pieces@[j]@)
                        <= BTREE_PAGE_SIZE as int && node_kind(pieces@[j]@) == node_kind(dr)
                        && num_keys(pieces@[j]@) == cuts[j + 1] - cuts[j] && 1 <= num_keys(
                        pieces@[j]@,
                    ))
                &&& (forall|j: int|
                    0 <= j < count ==> keys_of(#[trigger] pieces@[j]@) == keys_of(dr).subrange(
                        cuts[j],
                        cuts[j + 1],
                    ) && vals_of(pieces@[j]@) == vals_of(dr).subrange(cuts[j], cuts[j + 1])
                        && ptrs_of(pieces@[j]@) == ptrs_of(dr).subrange(cuts[j], cuts[j + 1]))
                &&& sep0@.len() <= BTREE_MAX_KEY_SIZE
                &&& sep0@ == key_at(dr, 0)
                &&& (1 <= i ==> lex_le(key_at(d0, i), sep0@))
                &&& (i > 0 ==> lex_lt(key_at(d0, i - 1), sep0@))
                &&& (i + 1 < n ==> kvs_upper_bounded(subtree_kvs_data(sa, dr, hp), key_at(d0, i + 1)))
                &&& sa.contains_key(child_id)
                &&& !kids_ids(sa, d0, h, 0, i).contains(child_id)
                &&& !kids_ids(sa, d0, h, i + 1, n).contains(child_id)
                &&& !subtree_ids_data(sa, dr, hp).contains(child_id)
                &&& (forall|p: u64|
                    #[trigger] subtree_ids_data(sa, dr, hp).contains(p) ==> !kids_ids(
                        sa,
                        d0,
                        h,
                        0,
                        i,
                    ).contains(p) && !kids_ids(sa, d0, h, i + 1, n).contains(p))
            }),
        ensures
            ({
                let sa = old(self).store@;
                let sf = final(self).store@;
                let d0 = node@;
                let i = i16 as int;
                let n = num_keys(d0) as int;
                let hp = (h - 1) as nat;
                let count = pieces@.len() as int;
                &&& subtree_wf_data(sf, r@, h)
                &&& num_keys(r@) == n + count - 1
                &&& node_size(r@) <= 2 * BTREE_PAGE_SIZE as int - 4
                &&& subtree_kvs_data(sf, r@, h) == kids_kvs(sa, d0, h, 0, i) + (subtree_kvs_data(
                    sa,
                    dr,
                    hp,
                ) + kids_kvs(sa, d0, h, i + 1, n))
                &&& (forall|p: u64|
                    #![trigger sa.contains_key(p)]
                    sa.contains_key(p) && p != child_id ==> sf.contains_key(p) && sf[p] == sa[p])
                &&& !sf.contains_key(child_id)
                &&& (forall|p: u64|
                    #[trigger] subtree_ids_data(sf, r@, h).contains(p) ==> kids_ids(
                        sa,
                        d0,
                        h,
                        0,
                        i,
                    ).contains(p) || kids_ids(sa, d0, h, i + 1, n).contains(p)
                        || subtree_ids_data(sa, dr, hp).contains(p) || !sa.contains_key(p))
                // the new node entry for entry: the old entries before the
                // child copied unchanged, one entry per piece under its
                // minimum key and a freshly stored page, the old entries
                // after the child copied unchanged
                &&& key_at(r@, i) == sep0@
                &&& rebuilt_entries(sa, sf, d0, r@, i, pieces@)
                &&& final(self).root == old(self).root
                &&& final(self).height == old(self).height
            }),
    {
        let ghost sa = self.store@;
        let ghost d0 = node@;
        let ghost i = i16 as int;
        let ghost hp = (h - 1) as nat;
        let n16 = node.n_keys();
        let ghost n = num_keys(d0) as int;
        let count_us = pieces.len();
        let count16 = count_us as u16;
        let ghost count = pieces@.len() as int;
        let ghost pieces0 = pieces@;
        proof {
            assert(4 + 10 * n + off_at(d0, n) <= BTREE_PAGE_SIZE as int);
            assert(n <= 409);
            lemma_off_monotonic(d0, 0, i);
            lemma_off_monotonic(d0, i + 1, n);
            assert(entry_wf(d0, i));
        }
        let (newn, Ghost(pids), Ghost(pbytes), Ghost(pre_suffix)) = self.rebuild_write(
            node,
            i16,
            sep0,
            pieces,
            Ghost(dr),
            Ghost(cuts),
        );
        proof {
            assert(self.store@.contains_key(child_id)) by {
                assert(sa.contains_key(child_id));
            }
        }
        let ghost s_mid = self.store@;
        self.store.free(child_id);
        proof {
            Self::lemma_rebuild_finish(
                sa,
                s_mid,
                self.store@,
                d0,
                pre_suffix,
                newn@,
                dr,
                h,
                i,
                count,
                pids,
                pbytes,
                pieces0,
                cuts,
                sep0@,
                child_id,
            );
        }
        newn
    }
    /// The tree's pages and root form a consistent copy-on-write B-tree.
    pub closed spec fn wf(self) -> bool {
        match self.root {
            Option::None => true,
            Option::Some(r) => subtree_wf(self.store@, r, self.height@),
        }
    }

    /// The tree's whole content, in ascending key order.
    pub closed spec fn kvs(self) -> KvList {
        match self.root {
            Option::None => Seq::empty(),
            Option::Some(r) => subtree_kvs(self.store@, r, self.height@),
        }
    }

    /// An empty tree: no root page, nothing stored.
    pub fn new() -> (r: Self)
        ensures
            r.wf(),
            r.kvs() == Seq::<(Seq<u8>, Seq<u8>)>::empty(),
    {
        BTree { store: PageStore::new(), root: None, height: Ghost(0) }
    }

    /// Pure read-only descent: the value stored under `key`, if any.
    pub fn get(&self, key: &[u8]) -> (r: Option<Vec<u8>>)
        requires
            self.wf(),
        ensures
            match r {
                Option::Some(v) => kvs_find(self.kvs(), key@) == Some(v@),
                Option::None => kvs_find(self.kvs(), key@) is None,
            },
    {
        match self.root {
            None => None,
            Some(root) => self.tree_get(root, key, Ghost(self.height@)),
        }
    }

    /// Recursive lookup below page `id`.
    fn tree_get(&self, id: u64, key: &[u8], Ghost(h): Ghost<nat>) -> (r: Option<Vec<u8>>)
        requires
            subtree_wf(self.store@, id, h),
        ensures
            match r {
                Option::Some(v) => kvs_find(subtree_kvs(self.store@, id, h), key@) == Some(v@),
                Option::None => kvs_find(subtree_kvs(self.store@, id, h), key@) is None,
            },
        decreases h,
    {
        let page = match self.store.read(id) {
            Some(p) => p,
            None => {
                proof {
                    assert(false);
                }
                return None;
            },
        };
        let node = BNode::new(page);
        proof {
            assert(node@ == self.store@[id]);
        }
        let lookup = node.node_lookup_less_than_or_equal(key);
        if node.b_type() == BNODE_LEAF {
            match lookup {
                None => {
                    proof {
                        if num_keys(node@) > 0 {
                            lemma_before_first_absent(self.store@, node@, h, key@);
                        }
                    }
                    None
                },
                Some(i) => {
                    proof {
                        lemma_leaf_find(node@, i as int, key@);
                    }
                    let node_key = node.get_key(i);
                    match compare_bytes(node_key, key) {
                        KeyOrdering::Equal => Some(copy_bytes(node.get_value(i))),
                        _ => None,
                    }
                },
            }
        } else {
            match lookup {
                None => {
                    proof {
                        lemma_before_first_absent(self.store@, node@, h, key@);
                    }
                    None
                },
                Some(i) => {
                    proof {
                        lemma_route(self.store@, node@, h, i as int, key@);
                        lemma_kids_wf_elim(
                            self.store@,
                            node@,
                            h,
                            0,
                            num_keys(node@) as int,
                            i as int,
                        );
                    }
                    let child = node.get_pointer(i);
                    self.tree_get(child, key, Ghost((h - 1) as nat))
                },
            }
        }
    }

    /// Full ordered scan: every key-value pair, in ascending key order.
    pub fn scan(&self) -> (r: Vec<(Vec<u8>, Vec<u8>)>)
        requires
            self.wf(),
        ensures
            pairs_view(r@) == self.kvs(),
    {
        match self.root {
            None => {
                let r: Vec<(Vec<u8>, Vec<u8>)> = Vec::new();
                proof {
                    assert(pairs_view(r@) =~= self.kvs());
                }
                r
            },
            Some(root) => {
                let r = self.tree_scan(root, Ghost(self.height@));
                r
            },
        }
    }

    /// Recursive in-order collection below page `id`.
    fn tree_scan(&self, id: u64, Ghost(h): Ghost<nat>) -> (r: Vec<(Vec<u8>, Vec<u8>)>)
        requires
            subtree_wf(self.store@, id, h),
        ensures
            pairs_view(r@) == subtree_kvs(self.store@, id, h),
        decreases h, 0int,
    {
        let page = match self.store.read(id) {
            Some(p) => p,
            None => {
                proof {
                    assert(false);
                }
                return Vec::new();
            },
        };
        let node = BNode::new(page);
        proof {
            assert(node@ == self.store@[id]);
        }
        let n = node.n_keys();
        let mut out: Vec<(Vec<u8>, Vec<u8>)> = Vec::new();
        if node.b_type() == BNODE_LEAF {
            let mut i: u16 = 0;
            while i < n
                invariant
                    subtree_wf(self.store@, id, h),
                    node@ == self.store@[id],
                    h == 0,
                    n as nat == num_keys(node@),
                    0 <= i <= n,
                    pairs_view(out@) == leaf_kvs(node@).subrange(0, i as int),
                decreases n - i,
            {
                let k = copy_bytes(node.get_key(i));
                let v = copy_bytes(node.get_value(i));
                let ghost prev = out@;
                out.push((k, v));
                proof {
                    assert(pairs_view(prev).len() == i as int);
                    assert(prev.len() == i as int);
                    assert(out@ == prev.push((k, v)));
                    assert forall|j: int|
                        0 <= j < i as int + 1 implies pairs_view(out@)[j] == leaf_kvs(
                        node@,
                    ).subrange(0, i as int + 1)[j] by {
                        if j < i as int {
                            assert(out@[j] == prev[j]);
                            assert(pairs_view(out@)[j] == pairs_view(prev)[j]);
                            assert(pairs_view(prev)[j] == leaf_kvs(node@).subrange(
                                0,
                                i as int,
                            )[j]);
                        } else {
                            assert(out@[j] == (k, v));
                        }
                    }
                    assert(pairs_view(out@) =~= leaf_kvs(node@).subrange(0, i as int + 1));
                }
                i = i + 1;
            }
            proof {
                assert(leaf_kvs(node@).subrange(0, n as int) =~= leaf_kvs(node@));
            }
            out
        } else {
            let mut i: u16 = 0;
            while i < n
                invariant
                    subtree_wf(self.store@, id, h),
                    node@ == self.store@[id],
                    h > 0,
                    n as nat == num_keys(node@),
                    0 <= i <= n,
                    pairs_view(out@) == kids_kvs(self.store@, node@, h, 0, i as int),
                decreases n - i, 1int,
            {
                proof {
                    lemma_kids_wf_elim(self.store@, node@, h, 0, n as int, i as int);
                }
                let child = node.get_pointer(i);
                let mut part = self.tree_scan(child, Ghost((h - 1) as nat));
                let ghost old_out = out@;
                let ghost old_part = part@;
                out.append(&mut part);
                proof {
                    assert forall|j: int|
                        0 <= j < out@.len() implies pairs_view(out@)[j] == (pairs_view(old_out)
                        + pairs_view(old_part))[j] by {
                        if j < old_out.len() {
                            assert(out@[j] == old_out[j]);
                        } else {
                            assert(out@[j] == old_part[j - old_out.len()]);
                        }
                    }
                    assert(pairs_view(out@) =~= pairs_view(old_out) + pairs_view(old_part));
                    lemma_kids_split(self.store@, node@, h, 0, i as int, i + 1);
                    lemma_kids_one(self.store@, node@, h, i as int);
                }
                i = i + 1;
            }
            proof {
                assert(kids_kvs(self.store@, node@, h, 0, n as int) == subtree_kvs(
                    self.store@,
                    id,
                    h,
                ));
            }
            out
        }
    }

    /// Cuts a rewritten node into one to three page-sized pieces in key
    /// order and hands back the pieces with the cut positions.
    #[verifier::rlimit(100)]
    #[verifier::spinoff_prover]
    fn split_pieces(dr_node: &BNode) -> (r: (Vec<BNode>, Ghost<Seq<int>>))
        requires
            node_wf(dr_node@),
            1 <= num_keys(dr_node@),
            records_fit_page(dr_node@),
            node_size(dr_node@) <= 2 * BTREE_PAGE_SIZE as int - 4,
        ensures
            ({
                let pieces = r.0@;
                let cuts = r.1@;
                let dr = dr_node@;
                let count = pieces.len() as int;
                &&& 1 <= count <= 3
                &&& cuts.len() == count + 1
                &&& cuts[0] == 0
                &&& cuts[count] == num_keys(dr)
                &&& (forall|j: int| 0 <= j < count ==> #[trigger] cuts[j] < cuts[j + 1])
                &&& (forall|j: int|
                    0 <= j < count ==> node_wf(#[trigger] pieces[j]@) && node_size(pieces[j]@)
                        <= BTREE_PAGE_SIZE as int && node_kind(pieces[j]@) == node_kind(dr)
                        && num_keys(pieces[j]@) == cuts[j + 1] - cuts[j] && 1 <= num_keys(
                        pieces[j]@,
                    ))
                &&& (forall|j: int|
                    0 <= j < count ==> keys_of(#[trigger] pieces[j]@) == keys_of(dr).subrange(
                        cuts[j],
                        cuts[j + 1],
                    ) && vals_of(pieces[j]@) == vals_of(dr).subrange(cuts[j], cuts[j + 1])
                        && ptrs_of(pieces[j]@) == ptrs_of(dr).subrange(cuts[j], cuts[j + 1]))
                &&& key_at(pieces[0]@, 0) == key_at(dr, 0)
                &&& (count == 1 <==> node_size(dr) <= BTREE_PAGE_SIZE as int)
                &&& (count == 1 ==> pieces[0]@ == dr)
            }),
    {
        let ghost dr = dr_node@;
        let ghost nr = num_keys(dr) as int;
        let (oa, ob, oc) = dr_node.node_split_three();
        let mut pieces: Vec<BNode> = Vec::new();
        let ghost mut cuts: Seq<int> = Seq::empty();
        match (oa, ob, oc) {
            (None, None, Some(c)) => {
                proof {
                    cuts = seq![0int, nr];
                }
                pieces.push(c);
                proof {
                    assert(keys_of(dr).subrange(0, nr) =~= keys_of(dr));
                    assert(vals_of(dr).subrange(0, nr) =~= vals_of(dr));
                    assert(ptrs_of(dr).subrange(0, nr) =~= ptrs_of(dr));
                    assert(pieces@[0]@ == dr);
                    assert(keys_of(pieces@[0]@)[0] == key_at(dr, 0));
                }
            },
            (None, Some(b), Some(c)) => {
                proof {
                    lemma_two_windows(dr, b@, c@);
                    cuts = seq![0int, num_keys(b@) as int, nr];
                }
                pieces.push(b);
                pieces.push(c);
                proof {
                    assert(keys_of(pieces@[0]@)[0] == keys_of(dr).subrange(
                        0,
                        num_keys(pieces@[0]@) as int,
                    )[0]);
                }
            },
            (Some(a), Some(b), Some(c)) => {
                proof {
                    lemma_three_windows(dr, a@, b@, c@);
                    cuts =
                    seq![
                        0int,
                        num_keys(a@) as int,
                        num_keys(a@) + num_keys(b@) as int,
                        nr,
                    ];
                }
                pieces.push(a);
                pieces.push(b);
                pieces.push(c);
                proof {
                    assert(keys_of(pieces@[0]@)[0] == keys_of(dr).subrange(
                        0,
                        num_keys(pieces@[0]@) as int,
                    )[0]);
                }
            },
            _ => {
                proof {
                    assert(false);
                }
            },
        }
        (pieces, Ghost(cuts))
    }

    /// Copy-on-write insert below page `id`: hands back the rewritten node,
    /// not yet stored and possibly larger than one page. Every page outside
    /// the subtree survives unchanged, the subtree's own root page included;
    /// every page the result reaches either belonged to the subtree or is
    /// brand new.
    #[verifier::rlimit(100)]
    #[verifier::spinoff_prover]
    #[verifier::loop_isolation(true)]
    fn tree_insert(&mut self, id: u64, key: &[u8], value: &[u8], Ghost(h): Ghost<nat>) -> (r:
        BNode)
        requires
            subtree_wf(old(self).store@, id, h),
            key@.len() <= BTREE_MAX_KEY_SIZE,
            value@.len() <= BTREE_MAX_VAL_SIZE,
        ensures
            ({
                let s0 = old(self).store@;
                let sa = final(self).store@;
                let dr = r@;
                &&& subtree_wf_data(sa, dr, h)
                &&& node_size(dr) <= 2 * BTREE_PAGE_SIZE as int - 4
                &&& subtree_kvs_data(sa, dr, h) == kvs_insert(subtree_kvs(s0, id, h), key@, value@)
                &&& (forall|p: u64|
                    #![trigger s0.contains_key(p)]
                    s0.contains_key(p) && !subtree_ids(s0, id, h).contains(p) ==> sa.contains_key(
                        p,
                    ) && sa[p] == s0[p])
                &&& sa.contains_key(id) && sa[id] == s0[id]
                &&& (forall|p: u64|
                    #[trigger] subtree_ids_data(sa, dr, h).contains(p) ==> p != id && (subtree_ids(
                        s0,
                        id,
                        h,
                    ).contains(p) || !s0.contains_key(p)))
                &&& final(self).root == old(self).root
                &&& final(self).height == old(self).height
            }),
        decreases h,
    {
        let ghost s0 = self.store@;
        let page = match self.store.read(id) {
            Some(p) => p,
            None => {
                proof {
                    assert(false);
                }
                return BNode::new(Vec::new());
            },
        };
        let node = BNode::new(page);
        let ghost d0 = node@;
        let ghost n = num_keys(d0) as int;
        proof {
            assert(node@ == s0[id]);
            assert(4 + 10 * n <= node_size(d0));
            assert(n <= 409);
        }
        let lookup = node.node_lookup_less_than_or_equal(key);
        if node.b_type() == BNODE_LEAF {
            let mut newn = BNode::zeroed(2 * BTREE_PAGE_SIZE - 4);
            let ghost mut pos: int = 0;
            let ghost mut replace: bool = false;
            proof {
                lemma_off_monotonic(d0, 0, n);
                assert(off_at(d0, n) <= node_size(d0));
            }
            match lookup {
                None => {
                    newn.leaf_insert(&node, 0, key, value);
                    proof {
                        pos = 0;
                        replace = false;
                    }
                },
                Some(idx) => {
                    let node_key = node.get_key(idx);
                    match compare_bytes(node_key, key) {
                        KeyOrdering::Equal => {
                            proof {
                                assert(entry_wf(d0, idx as int));
                                lemma_off_monotonic(d0, idx as int + 1, n);
                            }
                            newn.leaf_update(&node, idx, key, value);
                            proof {
                                pos = idx as int;
                                replace = true;
                            }
                        },
                        _ => {
                            proof {
                                lemma_lex_trichotomy(key_at(d0, idx as int), key@);
                            }
                            newn.leaf_insert(&node, idx + 1, key, value);
                            proof {
                                pos = idx as int + 1;
                                replace = false;
                            }
                        },
                    }
                },
            }
            proof {
                let dn = newn@;
                lemma_leaf_splice(d0, dn, pos, key@, value@, replace);
                lemma_leaf_fit(d0, dn, pos, key@, value@, replace);
                assert(records_fit_page(dn)) by {
                    assert forall|m: int|
                        0 <= m < num_keys(dn) implies 14 + #[trigger] entry_span(dn, m)
                        <= BTREE_PAGE_SIZE as int by {
                        assert(key_len(dn, m) <= BTREE_MAX_KEY_SIZE as nat);
                        assert(val_len(dn, m) <= BTREE_MAX_VAL_SIZE as nat);
                    }
                }
                assert(node_ok(dn, 0));
                assert(subtree_wf_data(self.store@, dn, 0));
                assert(subtree_kvs_data(self.store@, dn, 0) == kvs_insert(
                    subtree_kvs(s0, id, 0),
                    key@,
                    value@,
                ));
                assert(subtree_ids_data(self.store@, dn, 0) =~= Set::<u64>::empty());
            }
            newn
        } else {
            let (i16, routed): (u16, bool) = match lookup {
                None => (0u16, false),
                Some(ix) => (ix, true),
            };
            let ghost i = i16 as int;
            proof {
                lemma_kids_wf_elim(self.store@, d0, h, 0, n, i);
            }
            let child_id = node.get_pointer(i16);
            let ghost hp = (h - 1) as nat;
            let ghost x = subtree_kvs(s0, child_id, hp);
            let dr_node = self.tree_insert(child_id, key, value, Ghost(hp));
            let ghost sa = self.store@;
            let ghost dr = dr_node@;
            let (pieces, Ghost(cuts)) = Self::split_pieces(&dr_node);
            proof {
                lemma_record_in_bounds(pieces@[0]@, 0);
                lemma_record_in_bounds(dr, 0);
            }
            let sep0 = copy_bytes(pieces[0].get_key(0));
            proof {
                assert(sep0@ == key_at(dr, 0));
                assert(sep0@.len() == key_len(dr, 0));
                assert(sep0@.len() <= BTREE_MAX_KEY_SIZE);
                lemma_insert_prepare(
                    s0,
                    sa,
                    d0,
                    dr,
                    h,
                    i,
                    routed,
                    key@,
                    value@,
                    child_id,
                    sep0@,
                );
            }
            let newn = self.rebuild_parent(
                &node,
                i16,
                &sep0,
                pieces,
                child_id,
                Ghost(h),
                Ghost(dr),
                Ghost(cuts),
            );
            proof {
                assert(preserved_except(sa, self.store@, child_id));
                lemma_insert_compose(
                    s0,
                    sa,
                    self.store@,
                    d0,
                    dr,
                    newn@,
                    h,
                    i,
                    routed,
                    key@,
                    value@,
                    id,
                    child_id,
                );
            }
            newn
        }
    }

    /// Splits a rewritten root into page-sized pieces, stores them, frees
    /// the superseded root page and re-links the root pointer, growing the
    /// tree by one level when the root split.
    #[verifier::rlimit(100)]
    #[verifier::spinoff_prover]
    #[verifier::loop_isolation(true)]
    fn commit_root(&mut self, dr_node: BNode, old_root: u64, Ghost(h): Ghost<nat>)
        requires
            ({
                let sa = old(self).store@;
                &&& old(self).root == Some(old_root)
                &&& old(self).height@ == h
                &&& sa.contains_key(old_root)
                &&& subtree_wf_data(sa, dr_node@, h)
                &&& node_size(dr_node@) <= 2 * BTREE_PAGE_SIZE as int - 4
                &&& !subtree_ids_data(sa, dr_node@, h).contains(old_root)
            }),
        ensures
            final(self).wf(),
            final(self).kvs() == subtree_kvs_data(old(self).store@, dr_node@, h),
    {
        let ghost sa = self.store@;
        let ghost dr = dr_node@;
        let ghost hp = h;
        let ghost nr = num_keys(dr) as int;
        let (mut pieces, Ghost(cuts)) = Self::split_pieces(&dr_node);
        let count = pieces.len();
        let ghost pieces0 = pieces@;
        proof {
            if h > 0 {
                lemma_kids_ids_in_dom(sa, dr, h, 0, nr);
            }
        }
        if count == 1 {
            let p0 = pieces.remove(0);
            let ghost dp = p0@;
            let pid = self.store.allocate(p0.into_data());
            let ghost s1 = self.store@;
            proof {
                assert(dp == dr);
                // every page of the rewritten subtree survives the insert of
                // the fresh page
                if h > 0 {
                    assert forall|p: u64|
                        #[trigger] kids_ids(sa, dr, h, 0, nr).contains(p) implies s1.contains_key(
                        p,
                    ) && s1[p] == sa[p] by {
                        assert(sa.contains_key(p));
                        assert(p != pid);
                    }
                    lemma_kids_frame(sa, s1, dr, h, 0, nr);
                }
                assert(subtree_wf_data(s1, dr, h));
                assert(subtree_kvs_data(s1, dr, h) == subtree_kvs_data(sa, dr, h));
                assert(subtree_ids_data(s1, dr, h) == subtree_ids_data(sa, dr, h));
                assert(!subtree_ids_data(s1, dr, h).contains(pid)) by {
                    if subtree_ids_data(sa, dr, h).contains(pid) {
                        assert(sa.contains_key(pid));
                    }
                }
                assert(subtree_wf(s1, pid, h));
            }
            self.store.free(old_root);
            self.root = Some(pid);
            proof {
                let sf = self.store@;
                assert(old_root != pid);
                lemma_subtree_ids_in_dom(s1, pid, h);
                assert forall|p: u64| #[trigger] subtree_ids(s1, pid, h).contains(p) implies
                    sf.contains_key(p) && sf[p] == s1[p] by {
                    assert(p == pid || subtree_ids_data(s1, dr, h).contains(p));
                    assert(p != old_root);
                }
                lemma_subtree_frame(s1, sf, pid, h);
                assert(subtree_kvs(sf, pid, h) == subtree_kvs_data(sa, dr, h));
            }
        } else {
            // the root split: a new internal root references every piece
            let count16 = count as u16;
            let ghost countg = count as int;
            let mut newroot = BNode::zeroed(BTREE_PAGE_SIZE);
            newroot.set_header(BNODE_INTERNAL, count16);
            proof {
                assert(wf_upto(newroot@, 0));
                assert forall|jj: int|
                    0 <= jj < countg implies key_len(#[trigger] pieces0[jj]@, 0)
                    <= BTREE_MAX_KEY_SIZE as nat by {
                    lemma_cuts_monotone(cuts, countg, 0, jj);
                    lemma_cuts_monotone(cuts, countg, jj + 1, countg);
                    assert(keys_of(pieces0[jj]@)[0] == keys_of(dr).subrange(
                        cuts[jj],
                        cuts[jj + 1],
                    )[0]);
                    lemma_record_in_bounds(pieces0[jj]@, 0);
                    lemma_record_in_bounds(dr, cuts[jj]);
                    assert(key_at(pieces0[jj]@, 0).len() == key_len(pieces0[jj]@, 0));
                    assert(key_at(dr, cuts[jj]).len() == key_len(dr, cuts[jj]));
                    assert(key_len(dr, cuts[jj]) <= BTREE_MAX_KEY_SIZE as nat);
                }
            }
            let empty_val: Vec<u8> = Vec::new();
            let ghost mut pids: Seq<u64> = Seq::empty();
            let ghost mut pbytes: Seq<Seq<u8>> = Seq::empty();
            let mut rest = pieces;
            let mut j: usize = 0;
            while j < count
                invariant
                    0 <= j <= count,
                    2 <= count <= 3,
                    count == countg,
                    rest@ =~= pieces0.skip(j as int),
                    pieces0.len() == countg,
                    empty_val@.len() == 0,
                    forall|jj: int|
                        0 <= jj < countg ==> node_wf(#[trigger] pieces0[jj]@) && 1 <= num_keys(
                            pieces0[jj]@,
                        ) && node_size(pieces0[jj]@) <= BTREE_PAGE_SIZE as int,
                    forall|jj: int|
                        0 <= jj < countg ==> key_len(#[trigger] pieces0[jj]@, 0)
                            <= BTREE_MAX_KEY_SIZE as nat,
                    newroot@.len() == BTREE_PAGE_SIZE,
                    num_keys(newroot@) == countg,
                    node_kind(newroot@) == BNODE_INTERNAL as nat,
                    wf_upto(newroot@, j as int),
                    off_at(newroot@, j as int) <= j * 1004,
                    pids.len() == j,
                    pbytes.len() == j,
                    forall|jj: int| 0 <= jj < j ==> #[trigger] pbytes[jj] == pieces0[jj]@,
                    forall|jj: int|
                        0 <= jj < j ==> self.store@.contains_key(#[trigger] pids[jj])
                            && self.store@[pids[jj]] == pbytes[jj] && !sa.contains_key(pids[jj]),
                    forall|j1: int, j2: int|
                        0 <= j1 < j2 < j ==> (#[trigger] pids[j1]) != (#[trigger] pids[j2]),
                    forall|m: int|
                        0 <= m < j ==> #[trigger] key_at(newroot@, m) == key_at(pieces0[m]@, 0)
                            && val_at(newroot@, m) == Seq::<u8>::empty() && ptr_at(newroot@, m)
                            == pids[m] as nat,
                    self.root == old(self).root,
                    self.height == old(self).height,
                    forall|p: u64|
                        #![trigger sa.contains_key(p)]
                        sa.contains_key(p) ==> self.store@.contains_key(p) && self.store@[p]
                            == sa[p],
                decreases count - j,
            {
                let piece = rest.remove(0);
                proof {
                    assert(piece@ == pieces0[j as int]@);
                    assert(rest@ =~= pieces0.skip(j as int + 1));
                    lemma_record_in_bounds(piece@, 0);
                }
                let sep: Vec<u8> = copy_bytes(piece.get_key(0));
                proof {
                    assert(sep@.len() == key_len(pieces0[j as int]@, 0)) by {
                        assert(key_at(piece@, 0).len() == key_len(piece@, 0));
                    }
                    assert(can_append(newroot@, j as int, sep@, Seq::<u8>::empty())) by {
                        assert(kv_pos(newroot@, j as int) == 4 + 10 * countg + off_at(
                            newroot@,
                            j as int,
                        ));
                        assert(off_at(newroot@, j as int) + 4 + sep@.len() <= (j + 1) * 1004);
                    }
                }
                let ghost s_before = self.store@;
                let pid = self.store.allocate(piece.into_data());
                let sep_sl = sep.as_slice();
                let emp_sl = empty_val.as_slice();
                proof {
                    assert(sep_sl@ == sep@);
                    assert(emp_sl@ =~= Seq::<u8>::empty());
                    assert(can_append(newroot@, j as int, sep_sl@, emp_sl@));
                }
                let ghost prev_new = newroot@;
                newroot.append_key_value(j as u16, pid, sep_sl, emp_sl);
                proof {
                    pids = pids.push(pid);
                    pbytes = pbytes.push(piece@);
                    assert forall|m: int|
                        0 <= m < j + 1 implies #[trigger] key_at(newroot@, m) == key_at(
                        pieces0[m]@,
                        0,
                    ) && val_at(newroot@, m) == Seq::<u8>::empty() && ptr_at(newroot@, m)
                        == pids[m] as nat by {
                        if m < j {
                            assert(entry_eq(newroot@, m, prev_new, m));
                            assert(key_at(prev_new, m) == key_at(pieces0[m]@, 0));
                        } else {
                            assert(key_at(newroot@, m) == sep@);
                            assert(sep@ == key_at(pieces0[m]@, 0));
                            assert(val_at(newroot@, m) == emp_sl@);
                            assert(emp_sl@ =~= Seq::<u8>::empty());
                            assert(ptr_at(newroot@, m) == pid as nat);
                        }
                    }
                    assert forall|p: u64|
                        #![trigger sa.contains_key(p)]
                        sa.contains_key(p) implies self.store@.contains_key(p) && self.store@[p]
                        == sa[p] by {
                        assert(s_before.contains_key(p) && s_before[p] == sa[p]);
                        assert(p != pid);
                    }
                    assert forall|jj: int|
                        0 <= jj < j + 1 implies self.store@.contains_key(#[trigger] pids[jj])
                        && self.store@[pids[jj]] == pbytes[jj] && !sa.contains_key(pids[jj]) by {
                        if jj < j {
                            assert(s_before.contains_key(pids[jj]));
                            assert(pids[jj] != pid);
                        } else {
                            assert(pids[jj] == pid);
                        }
                    }
                }
                j = j + 1;
            }
            let ghost s1 = self.store@;
            let ghost dn = newroot@;
            proof {
                // the rewritten node's pages survive the piece allocations
                if h > 0 {
                    assert forall|p: u64|
                        #[trigger] kids_ids(sa, dr, h, 0, nr).contains(p) implies s1.contains_key(
                        p,
                    ) && s1[p] == sa[p] by {
                        assert(sa.contains_key(p));
                    }
                    lemma_kids_frame(sa, s1, dr, h, 0, nr);
                }
                assert(subtree_wf_data(s1, dr, h));
                assert(subtree_kvs_data(s1, dr, h) == subtree_kvs_data(sa, dr, h));
                assert(subtree_ids_data(s1, dr, h) == subtree_ids_data(sa, dr, h));
                assert forall|jj: int|
                    0 <= jj < countg implies !subtree_ids_data(s1, dr, h).contains(
                    #[trigger] pids[jj],
                ) by {
                    if subtree_ids_data(sa, dr, h).contains(pids[jj]) {
                        assert(sa.contains_key(pids[jj]));
                    }
                }
                assert forall|jj: int| 1 <= jj < countg implies key_at(dn, jj) == key_at(
                    dr,
                    #[trigger] cuts[jj],
                ) by {
                    assert(key_at(dn, jj) == key_at(pieces0[jj]@, 0));
                    lemma_cuts_monotone(cuts, countg, 0, jj);
                    lemma_cuts_monotone(cuts, countg, jj + 1, countg);
                    assert(keys_of(pieces0[jj]@)[0] == keys_of(dr).subrange(
                        cuts[jj],
                        cuts[jj + 1],
                    )[0]);
                }
                assert(key_at(dn, 0) == key_at(dr, 0)) by {
                    assert(key_at(dn, 0) == key_at(pieces0[0]@, 0));
                }
                lemma_subtree_kvs_props(s1, dr, h);
                assert(kvs_lower_bounded(subtree_kvs_data(s1, dr, h), key_at(dn, 0)));
                assert forall|jj: int|
                    0 <= jj < countg implies ptr_at(dn, jj) == (#[trigger] pids[jj]) as nat by {
                    assert(key_at(dn, jj) == key_at(pieces0[jj]@, 0));
                }
                lemma_pieces_assemble(
                    s1,
                    dr,
                    dn,
                    (h + 1) as nat,
                    0,
                    countg,
                    countg,
                    pids,
                    pbytes,
                    cuts,
                    key_at(dr, 0),
                );
                lemma_pieces_ids(
                    s1,
                    dr,
                    dn,
                    (h + 1) as nat,
                    0,
                    countg,
                    countg,
                    pids,
                    pbytes,
                    cuts,
                    key_at(dr, 0),
                );
                lemma_window_total(s1, dr, h);
                assert(kids_kvs(s1, dn, (h + 1) as nat, 0, countg) == subtree_kvs_data(
                    s1,
                    dr,
                    h,
                ));
                // the new root node is sound
                assert(node_ok(dn, (h + 1) as nat)) by {
                    assert(node_wf(dn)) by {
                        assert(node_size(dn) == kv_pos(dn, countg));
                    }
                    assert forall|a: int, b: int|
                        0 <= a < b < countg implies lex_lt(key_at(dn, a), key_at(dn, b)) by {
                        lemma_cuts_monotone(cuts, countg, 0, a);
                        lemma_cuts_monotone(cuts, countg, a + 1, b);
                        lemma_cuts_monotone(cuts, countg, b + 1, countg);
                        assert(key_at(dn, a) == key_at(dr, cuts[a]));
                        assert(key_at(dn, b) == key_at(dr, cuts[b]));
                        assert(cuts[a] < cuts[b]);
                        assert(lex_lt(key_at(dr, cuts[a]), key_at(dr, cuts[b])));
                    }
                    assert(keys_sorted(dn));
                    assert(entries_fit(dn)) by {
                        assert forall|m: int|
                            0 <= m < countg implies #[trigger] key_len(dn, m)
                            <= BTREE_MAX_KEY_SIZE as nat && val_len(dn, m)
                            <= BTREE_MAX_VAL_SIZE as nat by {
                            lemma_record_in_bounds(dn, m);
                            assert(key_at(dn, m).len() == key_len(dn, m));
                            assert(val_at(dn, m).len() == val_len(dn, m));
                            assert(key_at(dn, m) == key_at(pieces0[m]@, 0));
                            assert(key_at(pieces0[m]@, 0).len() == key_len(pieces0[m]@, 0)) by {
                                lemma_record_in_bounds(pieces0[m]@, 0);
                            }
                        }
                    }
                    assert(records_fit_page(dn)) by {
                        assert forall|m: int|
                            0 <= m < countg implies 14 + #[trigger] entry_span(dn, m)
                            <= BTREE_PAGE_SIZE as int by {
                            assert(key_len(dn, m) <= BTREE_MAX_KEY_SIZE as nat);
                            assert(val_len(dn, m) <= BTREE_MAX_VAL_SIZE as nat);
                        }
                    }
                }
                assert(subtree_wf_data(s1, dn, (h + 1) as nat));
                assert(node_size(dn) <= BTREE_PAGE_SIZE as int) by {
                    assert(node_size(dn) == 4 + 10 * countg + off_at(dn, countg));
                    assert(off_at(dn, countg) <= countg * 1004);
                }
            }
            let rid = self.store.allocate(newroot.into_data());
            let ghost s2 = self.store@;
            self.store.free(old_root);
            self.root = Some(rid);
            self.height = Ghost((h + 1) as nat);
            proof {
                let sf = self.store@;
                assert(s2[rid] == dn);
                assert(!subtree_ids_data(s1, dn, (h + 1) as nat).contains(rid)) by {
                    if subtree_ids_data(s1, dn, (h + 1) as nat).contains(rid) {
                        lemma_kids_ids_in_dom(s1, dn, (h + 1) as nat, 0, countg);
                        assert(s1.contains_key(rid));
                    }
                }
                assert(rid != old_root);
                assert(!subtree_ids_data(s1, dn, (h + 1) as nat).contains(old_root)) by {
                    if subtree_ids_data(s1, dn, (h + 1) as nat).contains(old_root) {
                        lemma_kids_ids_member(s1, dn, (h + 1) as nat, 0, countg, old_root);
                        let jw = choose|jw: int|
                            0 <= jw < countg && (#[trigger] subtree_ids(
                                s1,
                                ptr_u64(dn, jw),
                                h,
                            )).contains(old_root);
                        assert(ptr_u64(dn, jw) == pids[jw]);
                        lemma_one_piece(s1, dr, pbytes[jw], h, pids[jw], cuts[jw], cuts[jw + 1])
                        ;
                        assert(old_root == pids[jw] || (h > 0 && kids_ids(
                            s1,
                            dr,
                            h,
                            cuts[jw],
                            cuts[jw + 1],
                        ).contains(old_root)));
                        if old_root != pids[jw] {
                            lemma_kids_split(s1, dr, h, 0, cuts[jw], cuts[jw + 1]);
                            lemma_kids_split(s1, dr, h, 0, cuts[jw + 1], nr);
                            lemma_cuts_monotone(cuts, countg, 0, jw);
                            lemma_cuts_monotone(cuts, countg, jw + 1, countg);
                            assert(kids_ids(s1, dr, h, 0, nr).contains(old_root));
                            assert(subtree_ids_data(sa, dr, h).contains(old_root));
                        }
                    }
                }
                assert(subtree_wf_data(s2, dn, (h + 1) as nat) && subtree_kvs_data(
                    s2,
                    dn,
                    (h + 1) as nat,
                ) == subtree_kvs_data(s1, dn, (h + 1) as nat) && subtree_ids_data(
                    s2,
                    dn,
                    (h + 1) as nat,
                ) == subtree_ids_data(s1, dn, (h + 1) as nat)) by {
                    lemma_kids_ids_in_dom(s1, dn, (h + 1) as nat, 0, countg);
                    assert forall|p: u64|
                        #[trigger] kids_ids(s1, dn, (h + 1) as nat, 0, countg).contains(
                            p,
                        ) implies s2.contains_key(p) && s2[p] == s1[p] by {
                        assert(s1.contains_key(p));
                        assert(p != rid);
                    }
                    lemma_kids_frame(s1, s2, dn, (h + 1) as nat, 0, countg);
                }
                assert(subtree_wf(s2, rid, (h + 1) as nat));
                lemma_subtree_ids_in_dom(s2, rid, (h + 1) as nat);
                assert forall|p: u64|
                    #[trigger] subtree_ids(s2, rid, (h + 1) as nat).contains(p) implies
                    sf.contains_key(p) && sf[p] == s2[p] by {
                    assert(p == rid || subtree_ids_data(s2, dn, (h + 1) as nat).contains(p));
                    assert(p != old_root);
                }
                lemma_subtree_frame(s2, sf, rid, (h + 1) as nat);
                assert(subtree_kvs(sf, rid, (h + 1) as nat) == subtree_kvs_data(sa, dr, h));
            }
        }
    }

    /// Writes `value` under `key`, replacing any value already stored there:
    /// the tree's content becomes its old content with the pair written.
    /// Fails exactly on an entry that could never fit a page, leaving the
    /// tree unchanged.
    #[verifier::rlimit(100)]
    #[verifier::spinoff_prover]
    pub fn insert(&mut self, key: &[u8], value: &[u8]) -> (r: Result<(), BTreeError>)
        requires
            old(self).wf(),
        ensures
            final(self).wf(),
            match r {
                Result::Ok(_) => key@.len() <= BTREE_MAX_KEY_SIZE && value@.len()
                    <= BTREE_MAX_VAL_SIZE && final(self).kvs() == kvs_insert(
                    old(self).kvs(),
                    key@,
                    value@,
                ),
                Result::Err(BTreeError::KeyTooLarge) => key@.len() > BTREE_MAX_KEY_SIZE
                    && final(self).kvs() == old(self).kvs(),
                Result::Err(BTreeError::ValueTooLarge) => key@.len() <= BTREE_MAX_KEY_SIZE
                    && value@.len() > BTREE_MAX_VAL_SIZE && final(self).kvs() == old(self).kvs(),
                _ => false,
            },
    {
        if key.len() > BTREE_MAX_KEY_SIZE {
            return Err(BTreeError::KeyTooLarge);
        }
        if value.len() > BTREE_MAX_VAL_SIZE {
            return Err(BTreeError::ValueTooLarge);
        }
        match self.root {
            None => {
                let mut leaf = BNode::zeroed(BTREE_PAGE_SIZE);
                leaf.set_header(BNODE_LEAF, 1);
                proof {
                    assert(wf_upto(leaf@, 0));
                    assert(can_append(leaf@, 0, key@, value@));
                }
                let ghost pre = leaf@;
                leaf.append_key_value(0, 0, key, value);
                proof {
                    let d = leaf@;
                    assert(append_effect(pre, d, 0, 0, key@, value@));
                    assert(num_keys(d) == 1 && key_at(d, 0) == key@ && val_at(d, 0) == value@);
                    assert(entry_wf(d, 0)) by {
                        assert(wf_upto(d, 1));
                    }
                    assert(node_wf(d)) by {
                        assert(node_size(d) == 18 + key@.len() + value@.len()) by {
                            assert(off_at(d, 1) == 4 + key@.len() + value@.len());
                        }
                    }
                    assert(key_at(d, 0).len() == key_len(d, 0));
                    assert(val_at(d, 0).len() == val_len(d, 0));
                    assert(entries_fit(d)) by {
                        assert forall|m: int|
                            0 <= m < num_keys(d) implies #[trigger] key_len(d, m)
                            <= BTREE_MAX_KEY_SIZE as nat && val_len(d, m)
                            <= BTREE_MAX_VAL_SIZE as nat by {
                            assert(m == 0);
                        }
                    }
                    assert(records_fit_page(d)) by {
                        assert forall|m: int|
                            0 <= m < 1 implies 14 + #[trigger] entry_span(d, m)
                            <= BTREE_PAGE_SIZE as int by {
                            assert(entry_span(d, 0) == 4 + key_len(d, 0) + val_len(d, 0));
                        }
                    }
                    assert(keys_sorted(d));
                    assert(node_ok(d, 0));
                    assert(leaf_kvs(d) =~= seq![(key@, value@)]);
                    assert(kvs_insert(Seq::<(Seq<u8>, Seq<u8>)>::empty(), key@, value@)
                        =~= seq![(key@, value@)]);
                }
                let id = self.store.allocate(leaf.into_data());
                self.root = Some(id);
                self.height = Ghost(0);
                proof {
                    assert(subtree_wf(self.store@, id, 0));
                    assert(subtree_kvs(self.store@, id, 0) == kvs_insert(
                        Seq::<(Seq<u8>, Seq<u8>)>::empty(),
                        key@,
                        value@,
                    ));
                }
                Ok(())
            },
            Some(root_id) => {
                let ghost h = self.height@;
                let ghost s0 = self.store@;
                let dr_node = self.tree_insert(root_id, key, value, Ghost(h));
                proof {
                    assert(self.store@.contains_key(root_id));
                }
                self.commit_root(dr_node, root_id, Ghost(h));
                Ok(())
            },
        }
    }
}

/// The tree's content is strictly sorted by key: a full scan yields keys in
/// strictly increasing byte order, one value per key, deduplicated by
/// last-write-wins.
pub proof fn lemma_tree_sorted(t: BTree)
    requires
        t.wf(),
    ensures
        kvs_sorted(t.kvs()),
{
    match t.root {
        Option::None => {
        },
        Option::Some(r) => {
            lemma_subtree_kvs_props(t.store@, t.store@[r], t.height@);
        },
    }
}

} // verus!
