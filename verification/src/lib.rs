//! Incremental maintenance of materialized views over a graph of relational
//! operators.
//!
//! Changes to base tables enter at root operators and travel as deltas through
//! selection, projection, aggregation and join stages to leaf views, which
//! keep the rows that reach them and tell what is owed to the sinks that
//! follow them.
//!
//! The functions of this library are verified against contracts that are
//! stated over the mathematical models of the values they touch: a row is a
//! sequence of values, a change a kind and a sequence of rows, a keyed view a
//! map, a join two maps from join values to live rows, the graph a sequence
//! of operators and a sequence of edges.
//!
//! Two things are taken on trust and say so where they stand: the vertices
//! and edges of the graph are kept by `petgraph`, of which
//! `viewsandgraphs::topology` states what is assumed; and the debug text of
//! a row comes from the standard formatter.
//!
//! The library performs no input or output. Where a change leads to
//! messages for attached sinks, it hands the messages back, each with the
//! number of its sink, and the caller sends them.

pub mod types;
pub mod units;
pub mod operators;
pub mod viewsandgraphs;
