//! Codec for one B-tree page.
//!
//! A node is a byte buffer laid out little-endian as
//!
//! ```text
//! 0..2              node kind (0 = leaf, 1 = internal)
//! 2..4              key count N
//! 4..4+8N           N child page ids, 8 bytes each (unused for leaves)
//! 4+8N..4+10N       N record-end offsets, 2 bytes each (offset before
//!                   index 0 is an implicit 0)
//! 4+10N..           key-value region, per record: 2-byte key length,
//!                   2-byte value length, key bytes, value bytes
//! ```
//!
//! Every decode is defined as a spec function over the byte sequence; the
//! executable accessors and builders are proved against those decodes.

use vstd::prelude::*;

use crate::order::lex_le;
use crate::order::lex_lt;

verus! {

/// Fixed capacity of one stored page, in bytes.
pub const BTREE_PAGE_SIZE: usize = 4096;

/// Largest key a record may hold.
pub const BTREE_MAX_KEY_SIZE: usize = 1000;

/// Largest value a record may hold.
pub const BTREE_MAX_VAL_SIZE: usize = 3000;

/// Header kind tag of a leaf node.
pub const BNODE_LEAF: u16 = 0;

/// Header kind tag of an internal node.
pub const BNODE_INTERNAL: u16 = 1;

/// Little-endian 16-bit decode at byte position `p`.
pub open spec fn u16_at(d: Seq<u8>, p: int) -> nat {
    d[p] as nat + 0x100 * (d[p + 1] as nat)
}

/// Little-endian 64-bit decode at byte position `p`.
pub open spec fn u64_at(d: Seq<u8>, p: int) -> nat {
    d[p] as nat + 0x100 * (d[p + 1] as nat) + 0x10000 * (d[p + 2] as nat) + 0x1000000 * (d[p
        + 3] as nat) + 0x100000000 * (d[p + 4] as nat) + 0x10000000000 * (d[p + 5] as nat)
        + 0x1000000000000 * (d[p + 6] as nat) + 0x100000000000000 * (d[p + 7] as nat)
}

/// Node kind stored in the header.
pub open spec fn node_kind(d: Seq<u8>) -> nat {
    u16_at(d, 0)
}

/// Key count stored in the header.
pub open spec fn num_keys(d: Seq<u8>) -> nat {
    u16_at(d, 2)
}

/// First byte past the pointer region.
pub open spec fn ptrs_end(d: Seq<u8>) -> int {
    4 + 8 * num_keys(d) as int
}

/// First byte of the key-value region.
pub open spec fn kv_base(d: Seq<u8>) -> int {
    4 + 10 * num_keys(d) as int
}

/// End offset of record `i - 1` within the key-value region; 0 before the
/// first record.
pub open spec fn off_at(d: Seq<u8>, i: int) -> nat {
    if i <= 0 {
        0
    } else {
        u16_at(d, ptrs_end(d) + 2 * (i - 1))
    }
}

/// Start of record `i` in the buffer.
pub open spec fn kv_pos(d: Seq<u8>, i: int) -> int {
    kv_base(d) + off_at(d, i)
}

/// Key length of record `i`.
pub open spec fn key_len(d: Seq<u8>, i: int) -> nat {
    u16_at(d, kv_pos(d, i))
}

/// Value length of record `i`.
pub open spec fn val_len(d: Seq<u8>, i: int) -> nat {
    u16_at(d, kv_pos(d, i) + 2)
}

/// Key bytes of record `i`.
pub open spec fn key_at(d: Seq<u8>, i: int) -> Seq<u8> {
    d.subrange(kv_pos(d, i) + 4, kv_pos(d, i) + 4 + key_len(d, i))
}

/// Value bytes of record `i`.
pub open spec fn val_at(d: Seq<u8>, i: int) -> Seq<u8> {
    d.subrange(
        kv_pos(d, i) + 4 + key_len(d, i),
        kv_pos(d, i) + 4 + key_len(d, i) + val_len(d, i),
    )
}

/// Child page id of entry `i`.
pub open spec fn ptr_at(d: Seq<u8>, i: int) -> nat {
    u64_at(d, 4 + 8 * i)
}

/// Bytes record `i` occupies in the key-value region.
pub open spec fn entry_span(d: Seq<u8>, i: int) -> nat {
    4 + key_len(d, i) + val_len(d, i)
}

/// Record `i`'s end offset is its start offset plus its span.
pub open spec fn entry_wf(d: Seq<u8>, i: int) -> bool {
    off_at(d, i + 1) == off_at(d, i) + entry_span(d, i)
}

/// Exact serialized length of the node, header and offset overhead included.
pub open spec fn node_size(d: Seq<u8>) -> int {
    kv_base(d) + off_at(d, num_keys(d) as int)
}

/// The buffer holds a fully consistent node: the fixed regions fit, every
/// record's offsets chain correctly, and the content fits the buffer.
pub open spec fn node_wf(d: Seq<u8>) -> bool {
    &&& 4 + 10 * num_keys(d) <= d.len()
    &&& node_size(d) <= d.len()
    &&& forall|i: int| 0 <= i < num_keys(d) ==> entry_wf(d, i)
    &&& (node_kind(d) == BNODE_LEAF || node_kind(d) == BNODE_INTERNAL)
}

/// The buffer is consistent for its first `k` records: what a builder has
/// established after appending records `0 .. k`.
pub open spec fn wf_upto(d: Seq<u8>, k: int) -> bool {
    &&& 4 + 10 * num_keys(d) <= d.len()
    &&& forall|i: int| 0 <= i < k ==> entry_wf(d, i)
    &&& kv_pos(d, k) <= d.len()
    &&& (node_kind(d) == BNODE_LEAF || node_kind(d) == BNODE_INTERNAL)
}

/// All keys of the node, in record order.
pub open spec fn keys_of(d: Seq<u8>) -> Seq<Seq<u8>> {
    Seq::new(num_keys(d), |i: int| key_at(d, i))
}

/// All values of the node, in record order.
pub open spec fn vals_of(d: Seq<u8>) -> Seq<Seq<u8>> {
    Seq::new(num_keys(d), |i: int| val_at(d, i))
}

/// All child page ids of the node, in record order.
pub open spec fn ptrs_of(d: Seq<u8>) -> Seq<nat> {
    Seq::new(num_keys(d), |i: int| ptr_at(d, i))
}

/// Entry `i1` of `d1` and entry `i2` of `d2` carry the same pointer, key and
/// value.
pub open spec fn entry_eq(d1: Seq<u8>, i1: int, d2: Seq<u8>, i2: int) -> bool {
    &&& key_at(d1, i1) == key_at(d2, i2)
    &&& val_at(d1, i1) == val_at(d2, i2)
    &&& ptr_at(d1, i1) == ptr_at(d2, i2)
}

/// Keys are strictly increasing in byte-lexicographic order.
pub open spec fn keys_sorted(d: Seq<u8>) -> bool {
    forall|i: int, j: int| 0 <= i < j < num_keys(d) ==> lex_lt(key_at(d, i), key_at(d, j))
}

/// Offsets grow along the record chain.
pub proof fn lemma_off_monotonic(d: Seq<u8>, i: int, j: int)
    requires
        0 <= i <= j,
        forall|k: int| 0 <= k < j ==> entry_wf(d, k),
    ensures
        off_at(d, i) <= off_at(d, j),
    decreases j - i,
{
    if i < j {
        lemma_off_monotonic(d, i, j - 1);
        assert(entry_wf(d, j - 1));
    }
}

/// Within a consistent node every record's bytes lie inside the buffer.
pub proof fn lemma_record_in_bounds(d: Seq<u8>, i: int)
    requires
        node_wf(d),
        0 <= i < num_keys(d),
    ensures
        kv_base(d) <= kv_pos(d, i),
        kv_pos(d, i) + 4 + key_len(d, i) + val_len(d, i) == kv_pos(d, i + 1),
        kv_pos(d, i + 1) <= node_size(d) <= d.len(),
{
    assert(entry_wf(d, i));
    lemma_off_monotonic(d, i + 1, num_keys(d) as int);
}

/// `d1` and `d2` hold the same bytes at every position in `[a, b)`.
pub open spec fn agree_range(d1: Seq<u8>, d2: Seq<u8>, a: int, b: int) -> bool {
    forall|j: int| a <= j < b ==> d1[j] == d2[j]
}

/// Frame rule of the builder: writes that stay clear of the header, of the
/// first `k` pointer slots, of the first `k` offset slots and of the first
/// `off_at(d1, k)` bytes of the key-value region leave records `0 .. k`
/// decoding unchanged.
pub proof fn lemma_entries_frame(d1: Seq<u8>, d2: Seq<u8>, k: int)
    requires
        d1.len() == d2.len(),
        0 <= k <= num_keys(d1),
        4 + 10 * num_keys(d1) <= d1.len(),
        kv_pos(d1, k) <= d1.len(),
        forall|i: int| 0 <= i < k ==> entry_wf(d1, i),
        agree_range(d1, d2, 0, 4 + 8 * k),
        agree_range(d1, d2, 0, 4),
        agree_range(d1, d2, ptrs_end(d1), ptrs_end(d1) + 2 * k),
        agree_range(d1, d2, kv_base(d1), kv_base(d1) + off_at(d1, k)),
    ensures
        num_keys(d2) == num_keys(d1),
        node_kind(d2) == node_kind(d1),
        forall|i: int| 0 <= i <= k ==> off_at(d2, i) == off_at(d1, i),
        forall|i: int| 0 <= i < k ==> entry_wf(d2, i),
        forall|i: int| 0 <= i < k ==> entry_eq(d2, i, d1, i),
{
    assert(num_keys(d2) == num_keys(d1));
    assert(node_kind(d2) == node_kind(d1));
    assert forall|i: int| 0 <= i <= k implies off_at(d2, i) == off_at(d1, i) by {
        if i > 0 {
            assert(d2[ptrs_end(d1) + 2 * (i - 1)] == d1[ptrs_end(d1) + 2 * (i - 1)]);
            assert(d2[ptrs_end(d1) + 2 * (i - 1) + 1] == d1[ptrs_end(d1) + 2 * (i - 1) + 1]);
        }
    }
    assert forall|i: int| 0 <= i < k implies entry_eq(d2, i, d1, i) && entry_wf(d2, i) && key_len(
        d2,
        i,
    ) == key_len(d1, i) && val_len(d2, i) == val_len(d1, i) by {
        lemma_off_monotonic(d1, i + 1, k);
        assert(entry_wf(d1, i));
        let p = kv_pos(d1, i);
        assert(p + 4 + key_len(d1, i) + val_len(d1, i) == kv_pos(d1, i + 1));
        assert(kv_pos(d1, i + 1) <= kv_pos(d1, k));
        assert(forall|j: int| kv_base(d1) <= j < kv_pos(d1, i + 1) ==> d2[j] == d1[j]);
        assert(off_at(d2, i) == off_at(d1, i));
        assert(kv_pos(d2, i) == p);
        assert(key_len(d2, i) == key_len(d1, i));
        assert(val_len(d2, i) == val_len(d1, i));
        assert(key_at(d2, i) =~= key_at(d1, i));
        assert(val_at(d2, i) =~= val_at(d1, i));
        assert(ptr_at(d2, i) == ptr_at(d1, i));
    }
}

/// Record `index` may be appended: everything before it is in place and the
/// new record fits the buffer and the 16-bit offsets.
pub open spec fn can_append(d: Seq<u8>, index: int, key: Seq<u8>, value: Seq<u8>) -> bool {
    &&& wf_upto(d, index)
    &&& 0 <= index < num_keys(d)
    &&& kv_pos(d, index) + 4 + key.len() + value.len() <= d.len()
    &&& off_at(d, index) + 4 + key.len() + value.len() <= 0xffff
}

/// What appending record `index` does to the buffer: the record decodes to
/// the given pointer, key and value, every earlier record is untouched, and
/// the offset chain is extended by the record's span.
pub open spec fn append_effect(
    d1: Seq<u8>,
    d2: Seq<u8>,
    index: int,
    pointer: nat,
    key: Seq<u8>,
    value: Seq<u8>,
) -> bool {
    &&& d2.len() == d1.len()
    &&& num_keys(d2) == num_keys(d1)
    &&& node_kind(d2) == node_kind(d1)
    &&& wf_upto(d2, index + 1)
    &&& key_at(d2, index) == key
    &&& val_at(d2, index) == value
    &&& ptr_at(d2, index) == pointer
    &&& forall|i: int| 0 <= i <= index ==> off_at(d2, i) == off_at(d1, i)
    &&& off_at(d2, index + 1) == off_at(d1, index) + 4 + key.len() + value.len()
    &&& forall|i: int| 0 <= i < index ==> entry_eq(d2, i, d1, i)
}

/// One appended record extends the copied window of each view by one.
#[verifier::rlimit(100)]
proof fn lemma_views_extend(
    prev: Seq<u8>,
    d: Seq<u8>,
    base: Seq<u8>,
    dest: int,
    src: int,
    i: int,
    pointer: nat,
    key: Seq<u8>,
    value: Seq<u8>,
)
    requires
        0 <= dest,
        0 <= src,
        0 <= i,
        dest + i < num_keys(prev),
        src + i < num_keys(base),
        num_keys(d) == num_keys(prev),
        append_effect(prev, d, dest + i, pointer, key, value),
        key == key_at(base, src + i),
        value == val_at(base, src + i),
        pointer == ptr_at(base, src + i),
        keys_of(prev).subrange(dest, dest + i) == keys_of(base).subrange(src, src + i),
        vals_of(prev).subrange(dest, dest + i) == vals_of(base).subrange(src, src + i),
        ptrs_of(prev).subrange(dest, dest + i) == ptrs_of(base).subrange(src, src + i),
    ensures
        keys_of(d).subrange(dest, dest + i + 1) == keys_of(base).subrange(src, src + i + 1),
        vals_of(d).subrange(dest, dest + i + 1) == vals_of(base).subrange(src, src + i + 1),
        ptrs_of(d).subrange(dest, dest + i + 1) == ptrs_of(base).subrange(src, src + i + 1),
{
    assert(forall|j: int| 0 <= j < dest + i ==> #[trigger] entry_eq(d, j, prev, j));
    assert forall|j: int| dest <= j < dest + i + 1 implies #[trigger] key_at(d, j) == key_at(
        base,
        j - dest + src,
    ) by {
        let m = j - dest;
        if m < i {
            assert(entry_eq(d, dest + m, prev, dest + m));
            assert(key_at(prev, dest + m) == keys_of(prev).subrange(dest, dest + i)[m]);
            assert(keys_of(base).subrange(src, src + i)[m] == key_at(base, src + m));
        }
    }
    assert forall|j: int| dest <= j < dest + i + 1 implies #[trigger] val_at(d, j) == val_at(
        base,
        j - dest + src,
    ) by {
        let m = j - dest;
        if m < i {
            assert(entry_eq(d, dest + m, prev, dest + m));
            assert(val_at(prev, dest + m) == vals_of(prev).subrange(dest, dest + i)[m]);
            assert(vals_of(base).subrange(src, src + i)[m] == val_at(base, src + m));
        }
    }
    assert forall|j: int| dest <= j < dest + i + 1 implies #[trigger] ptr_at(d, j) == ptr_at(
        base,
        j - dest + src,
    ) by {
        let m = j - dest;
        if m < i {
            assert(entry_eq(d, dest + m, prev, dest + m));
            assert(ptr_at(prev, dest + m) == ptrs_of(prev).subrange(dest, dest + i)[m]);
            assert(ptrs_of(base).subrange(src, src + i)[m] == ptr_at(base, src + m));
        }
    }
    assert(keys_of(d).subrange(dest, dest + i + 1) =~= keys_of(base).subrange(src, src + i + 1));
    assert(vals_of(d).subrange(dest, dest + i + 1) =~= vals_of(base).subrange(src, src + i + 1));
    assert(ptrs_of(d).subrange(dest, dest + i + 1) =~= ptrs_of(base).subrange(src, src + i + 1));
}

/// Records strictly before `dest` decode the same in `d` as in `prev`.
#[verifier::rlimit(100)]
pub proof fn lemma_views_prefix(prev: Seq<u8>, d: Seq<u8>, dest: int)
    requires
        0 <= dest <= num_keys(prev),
        num_keys(d) == num_keys(prev),
        forall|j: int| 0 <= j < dest ==> #[trigger] entry_eq(d, j, prev, j),
    ensures
        keys_of(d).subrange(0, dest) == keys_of(prev).subrange(0, dest),
        vals_of(d).subrange(0, dest) == vals_of(prev).subrange(0, dest),
        ptrs_of(d).subrange(0, dest) == ptrs_of(prev).subrange(0, dest),
{
    assert forall|j: int| 0 <= j < dest implies #[trigger] key_at(d, j) == key_at(prev, j) by {
        assert(entry_eq(d, j, prev, j));
    }
    assert forall|j: int| 0 <= j < dest implies #[trigger] val_at(d, j) == val_at(prev, j) by {
        assert(entry_eq(d, j, prev, j));
    }
    assert forall|j: int| 0 <= j < dest implies #[trigger] ptr_at(d, j) == ptr_at(prev, j) by {
        assert(entry_eq(d, j, prev, j));
    }
    assert(keys_of(d).subrange(0, dest) =~= keys_of(prev).subrange(0, dest));
    assert(vals_of(d).subrange(0, dest) =~= vals_of(prev).subrange(0, dest));
    assert(ptrs_of(d).subrange(0, dest) =~= ptrs_of(prev).subrange(0, dest));
}

/// Every record, alone with the per-entry overhead and a header, fits one
/// page: the precondition under which splitting can always succeed.
pub open spec fn records_fit_page(d: Seq<u8>) -> bool {
    forall|i: int|
        0 <= i < num_keys(d) ==> 14 + #[trigger] entry_span(d, i) <= BTREE_PAGE_SIZE as int
}

/// A node whose keys and values equal a window of another node's has the
/// same record spans as that window.
proof fn lemma_span_transfer(dr: Seq<u8>, ds: Seq<u8>, shift: int)
    requires
        node_wf(dr),
        node_wf(ds),
        0 <= shift,
        shift + num_keys(dr) <= num_keys(ds),
        keys_of(dr) == keys_of(ds).subrange(shift, shift + num_keys(dr)),
        vals_of(dr) == vals_of(ds).subrange(shift, shift + num_keys(dr)),
    ensures
        forall|i: int|
            0 <= i < num_keys(dr) ==> #[trigger] entry_span(dr, i) == entry_span(ds, shift + i),
{
    assert forall|i: int|
        0 <= i < num_keys(dr) implies #[trigger] entry_span(dr, i) == entry_span(ds, shift + i) by {
        lemma_record_in_bounds(dr, i);
        lemma_record_in_bounds(ds, shift + i);
        assert(key_at(dr, i) == keys_of(dr)[i]);
        assert(keys_of(ds).subrange(shift, shift + num_keys(dr))[i] == key_at(ds, shift + i));
        assert(val_at(dr, i) == vals_of(dr)[i]);
        assert(vals_of(ds).subrange(shift, shift + num_keys(dr))[i] == val_at(ds, shift + i));
        assert(key_at(dr, i).len() == key_len(dr, i));
        assert(key_at(ds, shift + i).len() == key_len(ds, shift + i));
        assert(val_at(dr, i).len() == val_len(dr, i));
        assert(val_at(ds, shift + i).len() == val_len(ds, shift + i));
    }
}

/// A byte buffer wrapped as a B-tree node.
///
/// The buffer may be larger than the encoded content: builders work in an
/// oversized scratch buffer and the split operations cut the result back to
/// page-sized pieces.
pub struct BNode {
    data: Vec<u8>,
}

impl View for BNode {
    type V = Seq<u8>;

    closed spec fn view(&self) -> Seq<u8> {
        self.data@
    }
}

/// Reads the two header bytes starting at `start` as a little-endian 16-bit
/// field.
pub fn decode_header_field(data: &Vec<u8>, start: usize, end: usize) -> (r: u16)
    requires
        end == start + 2,
        end <= data@.len(),
    ensures
        r as nat == u16_at(data@, start as int),
{
    let lo = data[start] as u16;
    let hi = data[start + 1] as u16;
    lo + 0x100 * hi
}

/// Writes `x` as two little-endian bytes at `pos`, touching nothing else.
fn put_u16(data: &mut Vec<u8>, pos: usize, x: u16)
    requires
        pos + 2 <= old(data)@.len(),
    ensures
        final(data)@.len() == old(data)@.len(),
        u16_at(final(data)@, pos as int) == x as nat,
        forall|j: int|
            0 <= j < final(data)@.len() && j != pos && j != pos + 1 ==> final(data)@[j] == old(
                data,
            )@[j],
{
    proof {
        assert((x & 0xff) < 0x100 && ((x >> 8) & 0xff) < 0x100 && (x & 0xff) + 0x100 * ((x >> 8)
            & 0xff) == x) by (bit_vector);
    }
    let n = data.len();
    let lo: u8 = (x & 0xff) as u8;
    let hi: u8 = ((x >> 8) & 0xff) as u8;
    data.set(pos, lo);
    data.set(pos + 1, hi);
}

/// Reads the eight bytes at `pos` as a little-endian 64-bit integer.
fn get_u64(data: &Vec<u8>, pos: usize) -> (r: u64)
    requires
        pos + 8 <= data@.len(),
    ensures
        r as nat == u64_at(data@, pos as int),
{
    let n = data.len();
    let b0 = data[pos] as u64;
    let b1 = data[pos + 1] as u64;
    let b2 = data[pos + 2] as u64;
    let b3 = data[pos + 3] as u64;
    let b4 = data[pos + 4] as u64;
    let b5 = data[pos + 5] as u64;
    let b6 = data[pos + 6] as u64;
    let b7 = data[pos + 7] as u64;
    b0 + 0x100 * b1 + 0x10000 * b2 + 0x1000000 * b3 + 0x100000000 * b4 + 0x10000000000 * b5
        + 0x1000000000000 * b6 + 0x100000000000000 * b7
}

/// Writes `x` as eight little-endian bytes at `pos`, touching nothing else.
fn put_u64(data: &mut Vec<u8>, pos: usize, x: u64)
    requires
        pos + 8 <= old(data)@.len(),
    ensures
        final(data)@.len() == old(data)@.len(),
        u64_at(final(data)@, pos as int) == x as nat,
        forall|j: int|
            0 <= j < final(data)@.len() && !(pos <= j < pos + 8) ==> final(data)@[j] == old(
                data,
            )@[j],
{
    proof {
        assert((x & 0xff) < 0x100 && ((x >> 8) & 0xff) < 0x100 && ((x >> 16) & 0xff) < 0x100 && ((x
            >> 24) & 0xff) < 0x100 && ((x >> 32) & 0xff) < 0x100 && ((x >> 40) & 0xff) < 0x100 && ((
        x >> 48) & 0xff) < 0x100 && ((x >> 56) & 0xff) < 0x100 && (x & 0xff) + 0x100 * ((x >> 8)
            & 0xff) + 0x10000 * ((x >> 16) & 0xff) + 0x1000000 * ((x >> 24) & 0xff) + 0x100000000 * (
        (x >> 32) & 0xff) + 0x10000000000 * ((x >> 40) & 0xff) + 0x1000000000000 * ((x >> 48)
            & 0xff) + 0x100000000000000 * ((x >> 56) & 0xff) == x) by (bit_vector);
    }
    let n = data.len();
    let b0: u8 = (x & 0xff) as u8;
    let b1: u8 = ((x >> 8) & 0xff) as u8;
    let b2: u8 = ((x >> 16) & 0xff) as u8;
    let b3: u8 = ((x >> 24) & 0xff) as u8;
    let b4: u8 = ((x >> 32) & 0xff) as u8;
    let b5: u8 = ((x >> 40) & 0xff) as u8;
    let b6: u8 = ((x >> 48) & 0xff) as u8;
    let b7: u8 = ((x >> 56) & 0xff) as u8;
    data.set(pos, b0);
    data.set(pos + 1, b1);
    data.set(pos + 2, b2);
    data.set(pos + 3, b3);
    data.set(pos + 4, b4);
    data.set(pos + 5, b5);
    data.set(pos + 6, b6);
    data.set(pos + 7, b7);
}

/// Copies `src` into `data` starting at `pos`, touching nothing else.
fn write_bytes(data: &mut Vec<u8>, pos: usize, src: &[u8])
    requires
        pos + src@.len() <= old(data)@.len(),
    ensures
        final(data)@.len() == old(data)@.len(),
        final(data)@.subrange(pos as int, pos + src@.len()) == src@,
        forall|j: int|
            0 <= j < final(data)@.len() && !(pos <= j < pos + src@.len()) ==> final(data)@[j]
                == old(data)@[j],
{
    let n = src.len();
    let total = data.len();
    let mut i: usize = 0;
    while i < n
        invariant
            0 <= i <= n,
            n == src@.len(),
            total == data@.len(),
            pos + n <= data@.len(),
            data@.len() == old(data)@.len(),
            forall|j: int| 0 <= j < i ==> data@[pos + j] == src@[j],
            forall|j: int| 0 <= j < data@.len() && !(pos <= j < pos + n) ==> data@[j] == old(
                data,
            )@[j],
        decreases n - i,
    {
        data.set(pos + i, src[i]);
        i = i + 1;
    }
    proof {
        assert(final(data)@.subrange(pos as int, pos + src@.len()) =~= src@);
    }
}

/// Builds a byte vector of `n` zeroes.
fn zero_vec(n: usize) -> (v: Vec<u8>)
    ensures
        v@.len() == n,
        forall|j: int| 0 <= j < n ==> v@[j] == 0u8,
{
    let mut v: Vec<u8> = Vec::new();
    let mut i: usize = 0;
    while i < n
        invariant
            0 <= i <= n,
            v@.len() == i,
            forall|j: int| 0 <= j < i ==> v@[j] == 0u8,
        decreases n - i,
    {
        v.push(0u8);
        i = i + 1;
    }
    v
}

impl BNode {
    /// Wraps a raw byte buffer as a node.
    pub fn new(data: Vec<u8>) -> (r: Self)
        ensures
            r@ == data@,
    {
        Self { data }
    }

    /// Allocates an all-zero scratch buffer of `n` bytes wrapped as a node.
    pub fn zeroed(n: usize) -> (r: Self)
        ensures
            r@.len() == n,
            forall|j: int| 0 <= j < n ==> r@[j] == 0u8,
    {
        Self { data: zero_vec(n) }
    }

    /// Consumes the node and hands back its byte buffer.
    pub fn into_data(self) -> (r: Vec<u8>)
        ensures
            r@ == self@,
    {
        self.data
    }

    /// The node holds no bytes at all: the state before any page exists.
    pub fn is_empty(&self) -> (r: bool)
        ensures
            r == (self@.len() == 0),
    {
        self.data.is_empty()
    }

    /// Writes the header: node kind and key count. Positions of every other
    /// region depend on the key count, so this comes before any record.
    pub fn set_header(&mut self, b_type: u16, n_keys: u16)
        requires
            4 <= old(self)@.len(),
        ensures
            final(self)@.len() == old(self)@.len(),
            node_kind(final(self)@) == b_type as nat,
            num_keys(final(self)@) == n_keys as nat,
            forall|j: int| 4 <= j < final(self)@.len() ==> final(self)@[j] == old(self)@[j],
    {
        put_u16(&mut self.data, 0, b_type);
        put_u16(&mut self.data, 2, n_keys);
    }

    /// Node kind from the header.
    pub fn b_type(&self) -> (r: u16)
        requires
            4 <= self@.len(),
        ensures
            r as nat == node_kind(self@),
    {
        decode_header_field(&self.data, 0, 2)
    }

    /// Key count from the header.
    pub fn n_keys(&self) -> (r: u16)
        requires
            4 <= self@.len(),
        ensures
            r as nat == num_keys(self@),
    {
        decode_header_field(&self.data, 2, 4)
    }

    /// Child page id of entry `index`.
    pub fn get_pointer(&self, index: u16) -> (r: u64)
        requires
            (index as nat) < num_keys(self@),
            kv_base(self@) <= self@.len(),
        ensures
            r as nat == ptr_at(self@, index as int),
    {
        let position: usize = 4 + 8 * (index as usize);
        get_u64(&self.data, position)
    }

    /// Writes the child page id of entry `index`, touching nothing else.
    pub fn set_pointer(&mut self, index: u16, pointer: u64)
        requires
            (index as nat) < num_keys(old(self)@),
            kv_base(old(self)@) <= old(self)@.len(),
        ensures
            final(self)@.len() == old(self)@.len(),
            ptr_at(final(self)@, index as int) == pointer as nat,
            forall|j: int|
                0 <= j < final(self)@.len() && !(4 + 8 * (index as int) <= j < 4 + 8 * (
                index as int) + 8) ==> final(self)@[j] == old(self)@[j],
    {
        let position: usize = 4 + 8 * (index as usize);
        put_u64(&mut self.data, position, pointer);
    }

    /// End offset of record `index - 1`; 0 for index 0.
    pub fn get_offset(&self, index: u16) -> (r: u16)
        requires
            (index as nat) <= num_keys(self@),
            kv_base(self@) <= self@.len(),
        ensures
            r as nat == off_at(self@, index as int),
    {
        if index == 0 {
            return 0;
        }
        let n = self.n_keys();
        let position: usize = 4 + 8 * (n as usize) + 2 * ((index - 1) as usize);
        decode_header_field(&self.data, position, position + 2)
    }

    /// Writes the end offset of record `index - 1`, touching nothing else.
    pub fn set_offset(&mut self, index: u16, offset: u16)
        requires
            1 <= index,
            (index as nat) <= num_keys(old(self)@),
            kv_base(old(self)@) <= old(self)@.len(),
        ensures
            final(self)@.len() == old(self)@.len(),
            off_at(final(self)@, index as int) == offset as nat,
            forall|j: int|
                0 <= j < final(self)@.len() && !(ptrs_end(old(self)@) + 2 * (index as int - 1) <= j
                    < ptrs_end(old(self)@) + 2 * (index as int - 1) + 2) ==> final(self)@[j] == old(
                    self,
                )@[j],
    {
        let n = self.n_keys();
        let position: usize = 4 + 8 * (n as usize) + 2 * ((index - 1) as usize);
        put_u16(&mut self.data, position, offset);
    }

    /// Start of record `index` in the buffer; at `index == n_keys` this is
    /// one past the last record, the node's exact size.
    pub fn key_value_position(&self, index: u16) -> (r: usize)
        requires
            (index as nat) <= num_keys(self@),
            kv_base(self@) <= self@.len(),
            kv_pos(self@, index as int) <= usize::MAX,
        ensures
            r == kv_pos(self@, index as int),
    {
        let n = self.n_keys();
        let off = self.get_offset(index);
        4 + 10 * (n as usize) + (off as usize)
    }

    /// Appends record `index`: writes its pointer slot, its length headers,
    /// its key and value bytes, and the end offset for the record after it.
    /// Records are supplied in increasing index order; earlier records are
    /// left untouched.
    #[verifier::rlimit(100)]
    pub fn append_key_value(&mut self, index: u16, pointer: u64, key: &[u8], value: &[u8])
        requires
            can_append(old(self)@, index as int, key@, value@),
        ensures
            append_effect(old(self)@, final(self)@, index as int, pointer as nat, key@, value@),
    {
        proof {
            let d = self@;
            assert(4 + 8 * (index as int) + 8 <= ptrs_end(d)) by {
                assert((index as int) < num_keys(d));
            }
        }
        let ghost d0 = self@;
        let total = self.data.len();
        let off = self.get_offset(index);
        let pos = self.key_value_position(index);
        let key_len_u16: u16 = key.len() as u16;
        let val_len_u16: u16 = value.len() as u16;
        put_u16(&mut self.data, pos, key_len_u16);
        put_u16(&mut self.data, pos + 2, val_len_u16);
        write_bytes(&mut self.data, pos + 4, key);
        write_bytes(&mut self.data, pos + 4 + key.len(), value);
        put_u64(&mut self.data, 4 + 8 * (index as usize), pointer);
        let ghost d5 = self@;
        proof {
            assert(agree_range(d0, d5, 0, 4));
            assert(num_keys(d5) == num_keys(d0));
            assert(ptrs_end(d5) == ptrs_end(d0));
        }
        let new_off: u16 = off + 4 + key_len_u16 + val_len_u16;
        self.set_offset(index + 1, new_off);
        proof {
            let d6 = self@;
            let idx = index as int;
            let e = ptrs_end(d0);
            let b = kv_base(d0);
            // the offset write touched only slot `index`
            assert(agree_range(d5, d6, 0, e + 2 * idx));
            assert(agree_range(d5, d6, e + 2 * idx + 2, d0.len() as int));
            // chain all writes: everything below the new record and outside
            // the written slots is as it was at the start
            assert(agree_range(d0, d6, 0, 4));
            assert(num_keys(d6) == num_keys(d0));
            assert(agree_range(d0, d6, 0, 4 + 8 * idx));
            assert(agree_range(d0, d6, e, e + 2 * idx));
            assert(agree_range(d0, d6, b, b + off_at(d0, idx))) by {
                assert(b + off_at(d0, idx) == kv_pos(d0, idx));
            }
            lemma_entries_frame(d0, d6, idx);
            // the new record decodes to what was written
            assert(off_at(d6, idx) == off_at(d0, idx));
            assert(kv_pos(d6, idx) == pos);
            assert(key_len(d6, idx) == key@.len()) by {
                assert(d6[pos as int] == d5[pos as int]);
                assert(d6[pos as int + 1] == d5[pos as int + 1]);
                assert(u16_at(d5, pos as int) == key_len_u16 as nat);
            }
            assert(val_len(d6, idx) == value@.len()) by {
                assert(d6[pos as int + 2] == d5[pos as int + 2]);
                assert(d6[pos as int + 3] == d5[pos as int + 3]);
                assert(u16_at(d5, pos as int + 2) == val_len_u16 as nat);
            }
            assert(key_at(d6, idx) == key@) by {
                assert(forall|j: int|
                    pos + 4 <= j < pos + 4 + key@.len() ==> d6[j] == d5[j]);
                assert(d5.subrange(pos + 4, pos + 4 + key@.len()) == key@);
                assert(key_at(d6, idx) =~= key@);
            }
            assert(val_at(d6, idx) == value@) by {
                assert(forall|j: int|
                    pos + 4 + key@.len() <= j < pos + 4 + key@.len() + value@.len() ==> d6[j]
                        == d5[j]);
                assert(d5.subrange(pos + 4 + key@.len(), pos + 4 + key@.len() + value@.len())
                    == value@);
                assert(val_at(d6, idx) =~= value@);
            }
            assert(ptr_at(d6, idx) == pointer as nat) by {
                assert(forall|j: int| 4 + 8 * idx <= j < 4 + 8 * idx + 8 ==> d6[j] == d5[j]);
                assert(u64_at(d5, 4 + 8 * idx) == pointer as nat);
            }
            assert(off_at(d6, idx + 1) == new_off as nat);
            assert(entry_wf(d6, idx));
            assert(wf_upto(d6, idx + 1)) by {
                assert(kv_pos(d6, idx + 1) == kv_pos(d0, idx) + 4 + key@.len() + value@.len());
            }
        }
    }

    /// Key bytes of record `index`.
    pub fn get_key(&self, index: u16) -> (r: &[u8])
        requires
            node_wf(self@),
            (index as nat) < num_keys(self@),
        ensures
            r@ == key_at(self@, index as int),
    {
        proof {
            lemma_record_in_bounds(self@, index as int);
        }
        let total = self.data.len();
        let pos = self.key_value_position(index);
        let klen = decode_header_field(&self.data, pos, pos + 2) as usize;
        &self.data.as_slice()[pos + 4..pos + 4 + klen]
    }

    /// Value bytes of record `index`.
    pub fn get_value(&self, index: u16) -> (r: &[u8])
        requires
            node_wf(self@),
            (index as nat) < num_keys(self@),
        ensures
            r@ == val_at(self@, index as int),
    {
        proof {
            lemma_record_in_bounds(self@, index as int);
        }
        let total = self.data.len();
        let pos = self.key_value_position(index);
        let klen = decode_header_field(&self.data, pos, pos + 2) as usize;
        let vlen = decode_header_field(&self.data, pos + 2, pos + 4) as usize;
        &self.data.as_slice()[pos + 4 + klen..pos + 4 + klen + vlen]
    }

    /// Exact serialized length of the node, header and offset overhead
    /// included.
    pub fn size(&self) -> (r: usize)
        requires
            kv_base(self@) <= self@.len(),
            node_size(self@) <= self@.len(),
        ensures
            r == node_size(self@),
    {
        let total = self.data.len();
        let n = self.n_keys();
        self.key_value_position(n)
    }

    /// Copies `n` consecutive records of `base`, starting at `src_old`, into
    /// this node starting at `dest_new`, preserving pointer, key and value
    /// of each.
    #[verifier::rlimit(100)]
    pub fn append_range(&mut self, base: &BNode, dest_new: u16, src_old: u16, n: u16)
        requires
            node_wf(base@),
            src_old as nat + n as nat <= num_keys(base@),
            wf_upto(old(self)@, dest_new as int),
            dest_new as nat + n as nat <= num_keys(old(self)@),
            off_at(old(self)@, dest_new as int) + off_at(base@, src_old as int + n as int)
                - off_at(base@, src_old as int) <= 0xffff,
            kv_base(old(self)@) + off_at(old(self)@, dest_new as int) + off_at(
                base@,
                src_old as int + n as int,
            ) - off_at(base@, src_old as int) <= old(self)@.len(),
        ensures
            final(self)@.len() == old(self)@.len(),
            num_keys(final(self)@) == num_keys(old(self)@),
            node_kind(final(self)@) == node_kind(old(self)@),
            wf_upto(final(self)@, dest_new as int + n as int),
            keys_of(final(self)@).subrange(dest_new as int, dest_new as int + n as int) == keys_of(
                base@,
            ).subrange(src_old as int, src_old as int + n as int),
            vals_of(final(self)@).subrange(dest_new as int, dest_new as int + n as int) == vals_of(
                base@,
            ).subrange(src_old as int, src_old as int + n as int),
            ptrs_of(final(self)@).subrange(dest_new as int, dest_new as int + n as int) == ptrs_of(
                base@,
            ).subrange(src_old as int, src_old as int + n as int),
            keys_of(final(self)@).subrange(0, dest_new as int) == keys_of(old(self)@).subrange(
                0,
                dest_new as int,
            ),
            vals_of(final(self)@).subrange(0, dest_new as int) == vals_of(old(self)@).subrange(
                0,
                dest_new as int,
            ),
            ptrs_of(final(self)@).subrange(0, dest_new as int) == ptrs_of(old(self)@).subrange(
                0,
                dest_new as int,
            ),
            forall|i: int|
                0 <= i <= dest_new as int ==> off_at(final(self)@, i) == off_at(old(self)@, i),
            off_at(final(self)@, dest_new as int + n as int) == off_at(old(self)@, dest_new as int)
                + off_at(base@, src_old as int + n as int) - off_at(base@, src_old as int),
    {
        let ghost d0 = self@;
        let mut i: u16 = 0;
        while i < n
            invariant
                node_wf(base@),
                src_old as nat + n as nat <= num_keys(base@),
                0 <= i <= n,
                self@.len() == d0.len(),
                num_keys(self@) == num_keys(d0),
                node_kind(self@) == node_kind(d0),
                wf_upto(self@, dest_new as int + i as int),
                dest_new as nat + n as nat <= num_keys(d0),
                off_at(d0, dest_new as int) + off_at(base@, src_old as int + n as int) - off_at(
                    base@,
                    src_old as int,
                ) <= 0xffff,
                kv_base(d0) + off_at(d0, dest_new as int) + off_at(
                    base@,
                    src_old as int + n as int,
                ) - off_at(base@, src_old as int) <= d0.len(),
                off_at(self@, dest_new as int + i as int) == off_at(d0, dest_new as int) + off_at(
                    base@,
                    src_old as int + i as int,
                ) - off_at(base@, src_old as int),
                keys_of(self@).subrange(dest_new as int, dest_new as int + i as int) == keys_of(
                    base@,
                ).subrange(src_old as int, src_old as int + i as int),
                vals_of(self@).subrange(dest_new as int, dest_new as int + i as int) == vals_of(
                    base@,
                ).subrange(src_old as int, src_old as int + i as int),
                ptrs_of(self@).subrange(dest_new as int, dest_new as int + i as int) == ptrs_of(
                    base@,
                ).subrange(src_old as int, src_old as int + i as int),
                keys_of(self@).subrange(0, dest_new as int) == keys_of(d0).subrange(
                    0,
                    dest_new as int,
                ),
                vals_of(self@).subrange(0, dest_new as int) == vals_of(d0).subrange(
                    0,
                    dest_new as int,
                ),
                ptrs_of(self@).subrange(0, dest_new as int) == ptrs_of(d0).subrange(
                    0,
                    dest_new as int,
                ),
                forall|j: int| 0 <= j <= dest_new as int ==> off_at(self@, j) == off_at(d0, j),
            decreases n - i,
        {
            let dst: u16 = dest_new + i;
            let src: u16 = src_old + i;
            proof {
                lemma_record_in_bounds(base@, src as int);
                lemma_off_monotonic(base@, src as int + 1, src_old as int + n as int);
                lemma_off_monotonic(base@, src_old as int, src as int);
            }
            let pointer = base.get_pointer(src);
            let key = base.get_key(src);
            let value = base.get_value(src);
            proof {
                assert(key@.len() == key_len(base@, src as int));
                assert(value@.len() == val_len(base@, src as int));
                assert(can_append(self@, dst as int, key@, value@));
            }
            let ghost prev = self@;
            self.append_key_value(dst, pointer, key, value);
            proof {
                lemma_views_extend(
                    prev,
                    self@,
                    base@,
                    dest_new as int,
                    src_old as int,
                    i as int,
                    pointer as nat,
                    key@,
                    value@,
                );
                lemma_views_prefix(prev, self@, dest_new as int);
                assert(keys_of(self@).subrange(0, dest_new as int) == keys_of(d0).subrange(
                    0,
                    dest_new as int,
                ));
                assert(vals_of(self@).subrange(0, dest_new as int) == vals_of(d0).subrange(
                    0,
                    dest_new as int,
                ));
                assert(ptrs_of(self@).subrange(0, dest_new as int) == ptrs_of(d0).subrange(
                    0,
                    dest_new as int,
                ));
            }
            i = i + 1;
        }
    }

    /// Builds, from leaf `base`, a new leaf with `(key, value)` spliced in at
    /// position `index`; records at and after `index` shift right by one.
    pub fn leaf_insert(&mut self, base: &BNode, index: u16, key: &[u8], value: &[u8])
        requires
            node_wf(base@),
            node_kind(base@) == BNODE_LEAF,
            index as nat <= num_keys(base@),
            num_keys(base@) + 1 <= 0xffff,
            off_at(base@, num_keys(base@) as int) + 4 + key@.len() + value@.len() <= 0xffff,
            14 + node_size(base@) + key@.len() + value@.len() <= old(self)@.len(),
        ensures
            final(self)@.len() == old(self)@.len(),
            node_wf(final(self)@),
            node_kind(final(self)@) == BNODE_LEAF,
            num_keys(final(self)@) == num_keys(base@) + 1,
            node_size(final(self)@) == node_size(base@) + 14 + key@.len() + value@.len(),
            keys_of(final(self)@).subrange(0, index as int) == keys_of(base@).subrange(
                0,
                index as int,
            ),
            vals_of(final(self)@).subrange(0, index as int) == vals_of(base@).subrange(
                0,
                index as int,
            ),
            key_at(final(self)@, index as int) == key@,
            val_at(final(self)@, index as int) == value@,
            keys_of(final(self)@).subrange(
                index as int + 1,
                num_keys(base@) as int + 1,
            ) == keys_of(base@).subrange(index as int, num_keys(base@) as int),
            vals_of(final(self)@).subrange(
                index as int + 1,
                num_keys(base@) as int + 1,
            ) == vals_of(base@).subrange(index as int, num_keys(base@) as int),
    {
        let ghost dbase = base@;
        let n = base.n_keys();
        proof {
            lemma_off_monotonic(dbase, index as int, num_keys(dbase) as int);
            lemma_off_monotonic(dbase, 0, index as int);
        }
        self.set_header(BNODE_LEAF, n + 1);
        proof {
            assert(wf_upto(self@, 0));
        }
        self.append_range(base, 0, 0, index);
        let ghost d1 = self@;
        self.append_key_value(index, 0, key, value);
        let ghost d2 = self@;
        proof {
            lemma_views_prefix(d1, d2, index as int);
        }
        self.append_range(base, index + 1, index, n - index);
        proof {
            let d3 = self@;
            assert(keys_of(d3).subrange(0, index as int) =~= keys_of(dbase).subrange(
                0,
                index as int,
            )) by {
                assert(forall|j: int|
                    0 <= j < index as int ==> #[trigger] keys_of(d3).subrange(
                        0,
                        index as int + 1,
                    )[j] == keys_of(d2).subrange(0, index as int + 1)[j]);
            }
            assert(vals_of(d3).subrange(0, index as int) =~= vals_of(dbase).subrange(
                0,
                index as int,
            )) by {
                assert(forall|j: int|
                    0 <= j < index as int ==> #[trigger] vals_of(d3).subrange(
                        0,
                        index as int + 1,
                    )[j] == vals_of(d2).subrange(0, index as int + 1)[j]);
            }
            assert(key_at(d3, index as int) == key@) by {
                assert(keys_of(d3).subrange(0, index as int + 1)[index as int] == keys_of(
                    d2,
                ).subrange(0, index as int + 1)[index as int]);
            }
            assert(val_at(d3, index as int) == value@) by {
                assert(vals_of(d3).subrange(0, index as int + 1)[index as int] == vals_of(
                    d2,
                ).subrange(0, index as int + 1)[index as int]);
            }
            assert(node_size(d3) == node_size(dbase) + 14 + key@.len() + value@.len());
            assert(node_wf(d3));
        }
    }

    /// Builds, from leaf `base`, a new leaf in which record `index` carries
    /// `(key, value)` in place of its old content; every other record is
    /// copied unchanged.
    pub fn leaf_update(&mut self, base: &BNode, index: u16, key: &[u8], value: &[u8])
        requires
            node_wf(base@),
            node_kind(base@) == BNODE_LEAF,
            (index as nat) < num_keys(base@),
            off_at(base@, num_keys(base@) as int) - entry_span(base@, index as int) + 4
                + key@.len() + value@.len() <= 0xffff,
            node_size(base@) - entry_span(base@, index as int) + 4 + key@.len() + value@.len()
                <= old(self)@.len(),
        ensures
            final(self)@.len() == old(self)@.len(),
            node_wf(final(self)@),
            node_kind(final(self)@) == BNODE_LEAF,
            num_keys(final(self)@) == num_keys(base@),
            node_size(final(self)@) == node_size(base@) - entry_span(base@, index as int) + 4
                + key@.len() + value@.len(),
            keys_of(final(self)@).subrange(0, index as int) == keys_of(base@).subrange(
                0,
                index as int,
            ),
            vals_of(final(self)@).subrange(0, index as int) == vals_of(base@).subrange(
                0,
                index as int,
            ),
            key_at(final(self)@, index as int) == key@,
            val_at(final(self)@, index as int) == value@,
            keys_of(final(self)@).subrange(
                index as int + 1,
                num_keys(base@) as int,
            ) == keys_of(base@).subrange(index as int + 1, num_keys(base@) as int),
            vals_of(final(self)@).subrange(
                index as int + 1,
                num_keys(base@) as int,
            ) == vals_of(base@).subrange(index as int + 1, num_keys(base@) as int),
    {
        let ghost dbase = base@;
        let n = base.n_keys();
        proof {
            lemma_off_monotonic(dbase, 0, index as int);
            lemma_off_monotonic(dbase, index as int + 1, num_keys(dbase) as int);
            assert(entry_wf(dbase, index as int));
        }
        self.set_header(BNODE_LEAF, n);
        proof {
            assert(wf_upto(self@, 0));
        }
        self.append_range(base, 0, 0, index);
        let ghost d1 = self@;
        self.append_key_value(index, 0, key, value);
        let ghost d2 = self@;
        proof {
            lemma_views_prefix(d1, d2, index as int);
        }
        self.append_range(base, index + 1, index + 1, n - index - 1);
        proof {
            let d3 = self@;
            assert(keys_of(d3).subrange(0, index as int) =~= keys_of(dbase).subrange(
                0,
                index as int,
            )) by {
                assert(forall|j: int|
                    0 <= j < index as int ==> #[trigger] keys_of(d3).subrange(
                        0,
                        index as int + 1,
                    )[j] == keys_of(d2).subrange(0, index as int + 1)[j]);
            }
            assert(vals_of(d3).subrange(0, index as int) =~= vals_of(dbase).subrange(
                0,
                index as int,
            )) by {
                assert(forall|j: int|
                    0 <= j < index as int ==> #[trigger] vals_of(d3).subrange(
                        0,
                        index as int + 1,
                    )[j] == vals_of(d2).subrange(0, index as int + 1)[j]);
            }
            assert(key_at(d3, index as int) == key@) by {
                assert(keys_of(d3).subrange(0, index as int + 1)[index as int] == keys_of(
                    d2,
                ).subrange(0, index as int + 1)[index as int]);
            }
            assert(val_at(d3, index as int) == value@) by {
                assert(vals_of(d3).subrange(0, index as int + 1)[index as int] == vals_of(
                    d2,
                ).subrange(0, index as int + 1)[index as int]);
            }
            assert(node_wf(d3));
        }
    }

    /// Greatest index whose key is less than or equal to `key`, or `None`
    /// when `key` is smaller than every key in the node (the explicit
    /// before-first sentinel).
    pub fn node_lookup_less_than_or_equal(&self, key: &[u8]) -> (r: Option<u16>)
        requires
            node_wf(self@),
            keys_sorted(self@),
        ensures
            match r {
                Option::None => num_keys(self@) == 0 || lex_lt(key@, key_at(self@, 0)),
                Option::Some(i) => (i as nat) < num_keys(self@) && lex_le(
                    key_at(self@, i as int),
                    key@,
                ) && ((i as nat) + 1 == num_keys(self@) || lex_lt(
                    key@,
                    key_at(self@, i as int + 1),
                )),
            },
    {
        let n = self.n_keys();
        let mut i: u16 = 0;
        while i < n
            invariant_except_break
                node_wf(self@),
                keys_sorted(self@),
                n as nat == num_keys(self@),
                0 <= i <= n,
                forall|j: int| 0 <= j < i as int ==> lex_le(#[trigger] key_at(self@, j), key@),
            ensures
                0 <= i <= n,
                forall|j: int| 0 <= j < i as int ==> lex_le(#[trigger] key_at(self@, j), key@),
                i < n ==> lex_lt(key@, key_at(self@, i as int)),
            decreases n - i,
        {
            let node_key = self.get_key(i);
            match crate::order::compare_bytes(node_key, key) {
                crate::order::KeyOrdering::Greater => {
                    break ;
                },
                _ => {
                    i = i + 1;
                },
            }
        }
        if i == 0 {
            None
        } else {
            Some(i - 1)
        }
    }

    /// Hands back a node holding a copy of the same bytes.
    pub fn duplicate(&self) -> (r: Self)
        ensures
            r@ == self@,
    {
        let data = self.data.clone();
        proof {
            assert(data@ =~= self.data@);
        }
        BNode { data }
    }

    /// Size of the piece made of the first `m` records: header, `m` pointer
    /// and offset slots, and the first `m` records' bytes.
    fn prefix_size(&self, m: u16) -> (r: usize)
        requires
            node_wf(self@),
            (m as nat) <= num_keys(self@),
        ensures
            r == 4 + 10 * (m as int) + off_at(self@, m as int),
    {
        let total = self.data.len();
        let off = self.get_offset(m);
        4 + 10 * (m as usize) + (off as usize)
    }

    /// Size of the piece made of the records from `m` on: a header, their
    /// pointer and offset slots, and their bytes.
    fn suffix_size(&self, m: u16) -> (r: usize)
        requires
            node_wf(self@),
            (m as nat) <= num_keys(self@),
        ensures
            r == 4 + 10 * (num_keys(self@) as int - m as int) + off_at(
                self@,
                num_keys(self@) as int,
            ) - off_at(self@, m as int),
    {
        proof {
            lemma_off_monotonic(self@, m as int, num_keys(self@) as int);
        }
        let total = self.data.len();
        let n = self.n_keys();
        let off_m = self.get_offset(m);
        let off_n = self.get_offset(n);
        4 + 10 * ((n - m) as usize) + (off_n as usize) - (off_m as usize)
    }

    /// Partitions the node into a left and a right piece in key order. The
    /// right piece always fits one page; the boundary lies as far right as
    /// possible while both pieces fit, so only when no boundary lets both
    /// fit does the left piece overflow a page, and `node_split_three` then
    /// cuts it again.
    #[verifier::rlimit(100)]
    pub fn node_split_two(&self) -> (r: (BNode, BNode))
        requires
            node_wf(self@),
            2 <= num_keys(self@),
            records_fit_page(self@),
            node_size(self@) <= 2 * BTREE_PAGE_SIZE,
        ensures
            node_wf(r.0@),
            node_wf(r.1@),
            node_kind(r.0@) == node_kind(self@),
            node_kind(r.1@) == node_kind(self@),
            1 <= num_keys(r.0@),
            1 <= num_keys(r.1@),
            num_keys(r.0@) + num_keys(r.1@) == num_keys(self@),
            keys_of(r.0@) == keys_of(self@).subrange(0, num_keys(r.0@) as int),
            vals_of(r.0@) == vals_of(self@).subrange(0, num_keys(r.0@) as int),
            ptrs_of(r.0@) == ptrs_of(self@).subrange(0, num_keys(r.0@) as int),
            keys_of(r.1@) == keys_of(self@).subrange(
                num_keys(r.0@) as int,
                num_keys(self@) as int,
            ),
            vals_of(r.1@) == vals_of(self@).subrange(
                num_keys(r.0@) as int,
                num_keys(self@) as int,
            ),
            ptrs_of(r.1@) == ptrs_of(self@).subrange(
                num_keys(r.0@) as int,
                num_keys(self@) as int,
            ),
            keys_of(r.0@) + keys_of(r.1@) == keys_of(self@),
            vals_of(r.0@) + vals_of(r.1@) == vals_of(self@),
            ptrs_of(r.0@) + ptrs_of(r.1@) == ptrs_of(self@),
            node_size(r.1@) <= BTREE_PAGE_SIZE,
            node_size(r.0@) == 4 + 10 * (num_keys(r.0@) as int) + off_at(
                self@,
                num_keys(r.0@) as int,
            ),
            node_size(r.0@) + node_size(r.1@) == node_size(self@) + 4,
            node_size(r.0@) >= 14 + entry_span(self@, 0),
            node_size(r.1@) >= 14 + entry_span(self@, num_keys(self@) as int - 1),
            // both pieces fit: no boundary further right would keep them both
            // within a page
            node_size(r.0@) <= BTREE_PAGE_SIZE && num_keys(r.0@) as int + 1 < num_keys(
                self@,
            ) as int ==> 4 + 10 * (num_keys(r.0@) as int + 1) + off_at(
                self@,
                num_keys(r.0@) as int + 1,
            ) > BTREE_PAGE_SIZE,
            // the left piece overflows: one boundary earlier the right piece
            // would have overflowed instead
            node_size(r.0@) > BTREE_PAGE_SIZE ==> 2 <= num_keys(r.0@) && 4 + 10 * (num_keys(
                self@,
            ) as int - num_keys(r.0@) as int + 1) + off_at(self@, num_keys(self@) as int) - off_at(
                self@,
                num_keys(r.0@) as int - 1,
            ) > BTREE_PAGE_SIZE,
    {
        let n = self.n_keys();
        proof {
            assert(entry_wf(self@, 0));
            assert(14 + entry_span(self@, 0) <= BTREE_PAGE_SIZE as int);
        }
        // first pass: the largest left piece that fits one page
        let mut n_left: u16 = 1;
        while n_left + 1 <= n - 1 && self.prefix_size(n_left + 1) <= BTREE_PAGE_SIZE
            invariant
                node_wf(self@),
                records_fit_page(self@),
                2 <= n,
                n as nat == num_keys(self@),
                1 <= n_left <= n - 1,
                4 + 10 * (n_left as int) + off_at(self@, n_left as int) <= BTREE_PAGE_SIZE,
            decreases n - n_left,
        {
            n_left = n_left + 1;
        }
        let ghost nl0 = n_left as int;
        proof {
            assert(nl0 == n as int - 1 || 4 + 10 * (nl0 + 1) + off_at(self@, nl0 + 1)
                > BTREE_PAGE_SIZE);
        }
        // second pass: while the right piece overflows, move the boundary
        // right; at the last boundary the right piece is one record and fits
        while self.suffix_size(n_left) > BTREE_PAGE_SIZE
            invariant
                node_wf(self@),
                records_fit_page(self@),
                2 <= n,
                n as nat == num_keys(self@),
                node_size(self@) <= 2 * BTREE_PAGE_SIZE,
                1 <= nl0 <= n_left as int,
                n_left <= n - 1,
                4 + 10 * nl0 + off_at(self@, nl0) <= BTREE_PAGE_SIZE,
                nl0 == n as int - 1 || 4 + 10 * (nl0 + 1) + off_at(self@, nl0 + 1)
                    > BTREE_PAGE_SIZE,
                n_left as int > nl0 ==> 4 + 10 * (n as int - n_left as int + 1) + off_at(
                    self@,
                    n as int,
                ) - off_at(self@, n_left as int - 1) > BTREE_PAGE_SIZE,
            decreases n - n_left,
        {
            proof {
                if n_left == n - 1 {
                    assert(entry_wf(self@, n as int - 1));
                    assert(off_at(self@, n as int) - off_at(self@, n as int - 1) == entry_span(
                        self@,
                        n as int - 1,
                    ));
                    assert(14 + entry_span(self@, n as int - 1) <= BTREE_PAGE_SIZE as int);
                    assert(false);
                }
            }
            n_left = n_left + 1;
        }
        let n_right: u16 = n - n_left;
        let b = self.b_type();
        proof {
            lemma_off_monotonic(self@, n_left as int, n as int);
            lemma_off_monotonic(self@, 0, n_left as int);
            assert(entry_wf(self@, n_left as int));
            lemma_off_monotonic(self@, n_left as int + 1, n as int);
            // the left buffer is large enough: the right piece keeps at
            // least one record
            assert(off_at(self@, n as int) - off_at(self@, n_left as int) >= entry_span(
                self@,
                n_left as int,
            )) by {
                assert(off_at(self@, n_left as int + 1) == off_at(self@, n_left as int)
                    + entry_span(self@, n_left as int));
            }
            assert(4 + 10 * (n_left as int) + off_at(self@, n_left as int) <= 2 * BTREE_PAGE_SIZE
                - 14);
        }
        let mut left = BNode::zeroed(2 * BTREE_PAGE_SIZE);
        left.set_header(b, n_left);
        proof {
            assert(wf_upto(left@, 0));
        }
        left.append_range(self, 0, 0, n_left);
        let mut right = BNode::zeroed(BTREE_PAGE_SIZE);
        right.set_header(b, n_right);
        proof {
            assert(wf_upto(right@, 0));
        }
        right.append_range(self, 0, n_left, n_right);
        proof {
            let dl = left@;
            let dr = right@;
            let d = self@;
            let nl = n_left as int;
            let nn = n as int;
            assert(keys_of(dl) =~= keys_of(d).subrange(0, nl));
            assert(vals_of(dl) =~= vals_of(d).subrange(0, nl));
            assert(ptrs_of(dl) =~= ptrs_of(d).subrange(0, nl));
            assert(keys_of(dr) =~= keys_of(d).subrange(nl, nn));
            assert(vals_of(dr) =~= vals_of(d).subrange(nl, nn));
            assert(ptrs_of(dr) =~= ptrs_of(d).subrange(nl, nn));
            assert(keys_of(dl) + keys_of(dr) =~= keys_of(d));
            assert(vals_of(dl) + vals_of(dr) =~= vals_of(d));
            assert(ptrs_of(dl) + ptrs_of(dr) =~= ptrs_of(d));
            assert(node_size(dl) == 4 + 10 * nl + off_at(d, nl));
            assert(node_size(dr) == 4 + 10 * (nn - nl) + off_at(d, nn) - off_at(d, nl));
            assert(node_wf(dl));
            assert(node_wf(dr));
            assert(off_at(d, 1) == entry_span(d, 0)) by {
                assert(entry_wf(d, 0));
            }
            assert(off_at(d, nl) >= off_at(d, 1)) by {
                lemma_off_monotonic(d, 1, nl);
            }
            assert(off_at(d, nn) - off_at(d, nl) >= entry_span(d, nn - 1)) by {
                assert(entry_wf(d, nn - 1));
                lemma_off_monotonic(d, nl, nn - 1);
            }
            if node_size(dl) > BTREE_PAGE_SIZE {
                assert(nl > nl0);
            }
            if node_size(dl) <= BTREE_PAGE_SIZE && nl + 1 < nn {
                if nl > nl0 {
                    assert(nl0 + 1 <= nl && nl <= nn - 1);
                    lemma_off_monotonic(d, nl0 + 1, nl);
                    assert(4 + 10 * (nl0 + 1) + off_at(d, nl0 + 1) > BTREE_PAGE_SIZE);
                    assert(false);
                }
            }
        }
        (left, right)
    }

    /// Splits an oversized node into at most three pieces that each fit one
    /// page, in key order: a node that already fits is handed back alone,
    /// unchanged; an overflowing left half of the first cut is cut once
    /// more.
    #[verifier::rlimit(100)]
    pub fn node_split_three(&self) -> (r: (Option<BNode>, Option<BNode>, Option<BNode>))
        requires
            node_wf(self@),
            1 <= num_keys(self@),
            records_fit_page(self@),
            node_size(self@) <= 2 * BTREE_PAGE_SIZE - 4,
        ensures
            r.2 is Some,
            r.0 is Some ==> r.1 is Some,
            (r.0 is None && r.1 is None) <==> node_size(self@) <= BTREE_PAGE_SIZE,
            match r {
                (Option::None, Option::None, Option::Some(c)) => c@ == self@ && node_size(c@)
                    <= BTREE_PAGE_SIZE,
                (Option::None, Option::Some(b), Option::Some(c)) => {
                    &&& node_wf(b@) && node_wf(c@)
                    &&& node_kind(b@) == node_kind(self@) && node_kind(c@) == node_kind(self@)
                    &&& 1 <= num_keys(b@) && 1 <= num_keys(c@)
                    &&& node_size(b@) <= BTREE_PAGE_SIZE && node_size(c@) <= BTREE_PAGE_SIZE
                    &&& keys_of(b@) + keys_of(c@) == keys_of(self@)
                    &&& vals_of(b@) + vals_of(c@) == vals_of(self@)
                    &&& ptrs_of(b@) + ptrs_of(c@) == ptrs_of(self@)
                },
                (Option::Some(a), Option::Some(b), Option::Some(c)) => {
                    &&& node_wf(a@) && node_wf(b@) && node_wf(c@)
                    &&& node_kind(a@) == node_kind(self@) && node_kind(b@) == node_kind(self@)
                        && node_kind(c@) == node_kind(self@)
                    &&& 1 <= num_keys(a@) && 1 <= num_keys(b@) && 1 <= num_keys(c@)
                    &&& node_size(a@) <= BTREE_PAGE_SIZE && node_size(b@) <= BTREE_PAGE_SIZE
                        && node_size(c@) <= BTREE_PAGE_SIZE
                    &&& keys_of(a@) + keys_of(b@) + keys_of(c@) == keys_of(self@)
                    &&& vals_of(a@) + vals_of(b@) + vals_of(c@) == vals_of(self@)
                    &&& ptrs_of(a@) + ptrs_of(b@) + ptrs_of(c@) == ptrs_of(self@)
                },
                _ => false,
            },
    {
        let total = self.size();
        if total <= BTREE_PAGE_SIZE {
            return (None, None, Some(self.duplicate()));
        }
        proof {
            if num_keys(self@) == 1 {
                assert(entry_wf(self@, 0));
                assert(node_size(self@) == 14 + entry_span(self@, 0));
                assert(false);
            }
        }
        let (left, right) = self.node_split_two();
        let left_size = left.size();
        if left_size <= BTREE_PAGE_SIZE {
            return (None, Some(left), Some(right));
        }
        let ghost nl = num_keys(left@) as int;
        let ghost nn = num_keys(self@) as int;
        proof {
            lemma_span_transfer(left@, self@, 0);
            if num_keys(left@) == 1 {
                assert(entry_wf(left@, 0));
                assert(node_size(left@) == 14 + entry_span(left@, 0));
                assert(entry_span(left@, 0) == entry_span(self@, 0));
                assert(false);
            }
            assert(records_fit_page(left@));
            assert(node_size(left@) <= 2 * BTREE_PAGE_SIZE);
            // one boundary earlier the right piece would have overflowed
            assert(node_size(right@) + 10 + entry_span(self@, nl - 1) > BTREE_PAGE_SIZE) by {
                assert(4 + 10 * (nn - nl + 1) + off_at(self@, nn) - off_at(self@, nl - 1)
                    > BTREE_PAGE_SIZE);
                assert(entry_wf(self@, nl - 1));
                assert(off_at(self@, nl) == off_at(self@, nl - 1) + entry_span(self@, nl - 1));
            }
        }
        let (first, middle) = left.node_split_two();
        proof {
            let df = first@;
            let dm = middle@;
            // the middle piece carries the left piece's last record, whose
            // span forced the boundary: the first piece therefore fits
            assert(node_size(dm) >= 14 + entry_span(left@, nl - 1));
            assert(entry_span(left@, nl - 1) == entry_span(self@, nl - 1));
            assert(node_size(dm) + node_size(right@) > BTREE_PAGE_SIZE + 4);
            assert(node_size(df) == node_size(left@) + 4 - node_size(dm));
            assert(node_size(left@) == node_size(self@) + 4 - node_size(right@));
            assert(node_size(df) <= BTREE_PAGE_SIZE);
            assert(keys_of(df) + keys_of(dm) + keys_of(right@) =~= keys_of(self@));
            assert(vals_of(df) + vals_of(dm) + vals_of(right@) =~= vals_of(self@));
            assert(ptrs_of(df) + ptrs_of(dm) + ptrs_of(right@) =~= ptrs_of(self@));
        }
        (Some(first), Some(middle), Some(right))
    }
}

} // verus!
