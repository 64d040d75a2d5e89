//! A small relational database: page storage with a rollback journal, a
//! B-tree, an SQL front end, a cost-based optimizer and a register machine.
pub mod engine;
pub mod sql;
