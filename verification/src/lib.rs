//! Joins for a compiler of relational queries.
//!
//! A query names a base table and walks from it along links between tables.
//! A `Scope` gathers the joins that the walks ask for: each path of links is
//! joined once, under an alias that no other join of the query has, and a walk
//! that fans out to many rows is folded into a derived table with one value for
//! each row that it is joined back to.

pub mod alias;
pub mod constants;
pub mod join_laws;
pub mod join_tree;
pub mod schema;
pub mod scope;
pub mod sql_tree;
pub mod text;
