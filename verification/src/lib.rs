//! An in-memory relational engine that stores its relations column by
//! column. A relation is a set of named columns of values, each value an
//! integer, a double or a text; the operators of relational algebra work on
//! that storage: selection, projection, sort, aggregation, lookup through an
//! index, and three joins. What each operation gives is stated with it and
//! proved.

pub mod aggregate;
pub mod database;
pub mod dtype;
pub mod errors;
pub mod ieee;
pub mod index;
pub mod interface;
pub mod join;
pub mod mutate;
pub mod order;
pub mod persist;
pub mod pretty;
pub mod relation;
pub mod sort;
pub mod text;
pub mod textmap;
pub mod theorems;
