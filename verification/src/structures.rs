//! The core data structures: a bucket-list hash table, a ternary search
//! trie (with a multi-value wrapper) and an ordered B-tree.

pub mod btree;
pub mod hash_table;
pub mod multi_tst;
pub mod tst;
