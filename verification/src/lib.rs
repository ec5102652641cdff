//! An embedded ordered key-value storage engine built on a copy-on-write
//! B-tree with fixed-size, binary-encoded pages.
//!
//! The `node` module is the codec for one page: a fixed-capacity byte buffer
//! holding a header, child pointers, record-end offsets and a key-value
//! region. The `store` module is the page arena that owns every page and
//! hands them out by integer id. The `btree` module owns the root page id and
//! performs lookup, insert and delete by recursive descent, never mutating a
//! page in place: every change writes new pages and frees the superseded ones.

pub mod btree;
pub mod kvs;
pub mod node;
pub mod order;
pub mod store;
pub mod types;

use vstd::prelude::*;

verus! {

} // verus!
