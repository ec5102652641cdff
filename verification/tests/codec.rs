use datablaze::node::BNode;
use datablaze::node::BNODE_INTERNAL;
use datablaze::node::BNODE_LEAF;
use datablaze::node::BTREE_MAX_KEY_SIZE;
use datablaze::node::BTREE_MAX_VAL_SIZE;
use datablaze::node::BTREE_PAGE_SIZE;
use datablaze::node::decode_header_field;
use datablaze::order::KeyOrdering;
use datablaze::order::compare_bytes;

fn leaf_of(entries: &[(&[u8], &[u8])]) -> BNode {
    let mut node = BNode::zeroed(BTREE_PAGE_SIZE);
    node.set_header(BNODE_LEAF, entries.len() as u16);
    for (i, (k, v)) in entries.iter().enumerate() {
        node.append_key_value(i as u16, 0, k, v);
    }
    node
}

#[test]
fn header_round_trip() {
    let mut node = BNode::zeroed(BTREE_PAGE_SIZE);
    node.set_header(BNODE_INTERNAL, 7);
    assert_eq!(node.b_type(), BNODE_INTERNAL);
    assert_eq!(node.n_keys(), 7);
    node.set_header(BNODE_LEAF, 3);
    assert_eq!(node.b_type(), BNODE_LEAF);
    assert_eq!(node.n_keys(), 3);
}

#[test]
fn decode_header_field_reads_little_endian() {
    let data = vec![0x34u8, 0x12, 0x01, 0x00];
    assert_eq!(decode_header_field(&data, 0, 2), 0x1234);
    assert_eq!(decode_header_field(&data, 2, 4), 1);
}

#[test]
fn three_records_round_trip() {
    let node = leaf_of(&[(b"k1", b"wat"), (b"k2", b"b"), (b"k3", b"hello")]);
    assert_eq!(node.get_key(0), b"k1");
    assert_eq!(node.get_value(0), b"wat");
    assert_eq!(node.get_key(1), b"k2");
    assert_eq!(node.get_value(1), b"b");
    assert_eq!(node.get_key(2), b"k3");
    assert_eq!(node.get_value(2), b"hello");
    // header, 3 pointers, 3 offsets, then 3 records of 4 bytes overhead each
    assert_eq!(node.size(), 4 + 3 * 10 + 3 * 4 + 2 + 3 + 2 + 1 + 2 + 5);
}

#[test]
fn one_maximal_record_fits_a_page() {
    let key = vec![7u8; BTREE_MAX_KEY_SIZE];
    let val = vec![9u8; BTREE_MAX_VAL_SIZE];
    let node = leaf_of(&[(key.as_slice(), val.as_slice())]);
    assert!(node.size() <= BTREE_PAGE_SIZE);
    assert_eq!(node.get_key(0), key.as_slice());
    assert_eq!(node.get_value(0), val.as_slice());
}

#[test]
fn pointers_round_trip() {
    let mut node = BNode::zeroed(BTREE_PAGE_SIZE);
    node.set_header(BNODE_INTERNAL, 2);
    node.append_key_value(0, 0x1122334455667788, b"a", b"");
    node.append_key_value(1, 42, b"b", b"");
    assert_eq!(node.get_pointer(0), 0x1122334455667788);
    assert_eq!(node.get_pointer(1), 42);
    node.set_pointer(1, 7);
    assert_eq!(node.get_pointer(1), 7);
}

#[test]
fn lookup_uses_byte_order_with_sentinel() {
    let node = leaf_of(&[(b"b", b"1"), (b"d", b"2"), (b"f", b"3")]);
    assert_eq!(node.node_lookup_less_than_or_equal(b"a"), None);
    assert_eq!(node.node_lookup_less_than_or_equal(b"b"), Some(0));
    assert_eq!(node.node_lookup_less_than_or_equal(b"c"), Some(0));
    assert_eq!(node.node_lookup_less_than_or_equal(b"d"), Some(1));
    assert_eq!(node.node_lookup_less_than_or_equal(b"z"), Some(2));
}

#[test]
fn leaf_insert_and_update_rebuild_records() {
    let base = leaf_of(&[(b"b", b"1"), (b"d", b"2")]);
    let mut grown = BNode::zeroed(2 * BTREE_PAGE_SIZE - 4);
    grown.leaf_insert(&base, 1, b"c", b"x");
    assert_eq!(grown.n_keys(), 3);
    assert_eq!(grown.get_key(0), b"b");
    assert_eq!(grown.get_key(1), b"c");
    assert_eq!(grown.get_value(1), b"x");
    assert_eq!(grown.get_key(2), b"d");
    let mut replaced = BNode::zeroed(2 * BTREE_PAGE_SIZE - 4);
    replaced.leaf_update(&base, 0, b"b", b"9");
    assert_eq!(replaced.n_keys(), 2);
    assert_eq!(replaced.get_value(0), b"9");
    assert_eq!(replaced.get_value(1), b"2");
}

#[test]
fn split_three_keeps_keys_in_order() {
    // an artificially overfull node: many wide records in one double buffer
    let val = vec![1u8; 900];
    let mut node = BNode::zeroed(2 * BTREE_PAGE_SIZE - 4);
    node.set_header(BNODE_LEAF, 8);
    for i in 0..8u16 {
        let key = vec![b'a' + i as u8; 10];
        node.append_key_value(i, 0, key.as_slice(), val.as_slice());
    }
    assert!(node.size() > BTREE_PAGE_SIZE);
    let (a, b, c) = node.node_split_three();
    let mut keys: Vec<Vec<u8>> = Vec::new();
    for piece in [a, b, c].into_iter().flatten() {
        assert!(piece.size() <= BTREE_PAGE_SIZE);
        for i in 0..piece.n_keys() {
            keys.push(piece.get_key(i).to_vec());
        }
    }
    let expected: Vec<Vec<u8>> = (0..8u16).map(|i| vec![b'a' + i as u8; 10]).collect();
    assert_eq!(keys, expected);
}

#[test]
fn split_two_partitions_in_order() {
    let val = vec![2u8; 1500];
    let mut node = BNode::zeroed(2 * BTREE_PAGE_SIZE - 4);
    node.set_header(BNODE_LEAF, 4);
    for i in 0..4u16 {
        let key = vec![b'k', b'0' + i as u8];
        node.append_key_value(i, 0, key.as_slice(), val.as_slice());
    }
    let (left, right) = node.node_split_two();
    assert!(left.size() <= BTREE_PAGE_SIZE);
    assert!(left.n_keys() >= 1 && right.n_keys() >= 1);
    assert_eq!(left.n_keys() + right.n_keys(), 4);
    assert_eq!(left.get_key(0), b"k0");
    assert_eq!(right.get_key(right.n_keys() - 1), b"k3");
}

#[test]
fn compare_bytes_is_lexicographic() {
    assert_eq!(compare_bytes(b"abc", b"abd"), KeyOrdering::Less);
    assert_eq!(compare_bytes(b"abc", b"abc"), KeyOrdering::Equal);
    assert_eq!(compare_bytes(b"abcd", b"abc"), KeyOrdering::Greater);
    assert_eq!(compare_bytes(b"", b"a"), KeyOrdering::Less);
}
