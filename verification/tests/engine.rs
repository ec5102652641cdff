use datablaze::btree::BTree;
use datablaze::types::ColumnData;
use datablaze::types::ColumnTypes;

#[test]
fn get_on_an_empty_tree_misses_any_key() {
    let tree = BTree::new();
    assert_eq!(tree.get(b"k1"), None);
    assert_eq!(tree.get(b""), None);
    assert_eq!(tree.get(b"zzzz"), None);
}

#[test]
fn scan_of_an_empty_tree_is_empty() {
    let tree = BTree::new();
    assert_eq!(tree.scan(), Vec::new());
}

#[test]
fn column_data_validates_by_type() {
    let s = ColumnData::String(String::from("test"));
    let n = ColumnData::Int(3);
    assert!(s.validate(ColumnTypes::String));
    assert!(!s.validate(ColumnTypes::Int));
    assert!(n.validate(ColumnTypes::Int));
    assert!(!n.validate(ColumnTypes::String));
}
