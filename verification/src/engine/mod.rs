//! Storage: values, pages, the journal and the B-tree.
pub mod btree;
pub mod bytes;
pub mod cursor;
pub mod durability;
pub mod insert;
pub mod journal;
pub mod laws;
pub mod node;
pub mod node_ops;
pub mod order;
pub mod pages;
pub mod record;
pub mod recovery;
pub mod remove;
pub mod shape;
pub mod small;
pub mod tables;
pub mod transaction;
pub mod tree;
pub mod tree_insert;
pub mod tree_remove;
pub mod value;
pub mod walk;
pub mod whole;
