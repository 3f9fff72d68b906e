//! Classic algorithms: graphs and their traversals, sorting, searching,
//! priority queues, symbol tables and union-find.
pub mod binary_search;
pub mod graph;
pub mod misc;
pub mod sort;
pub mod symbol_table;
pub mod union_find;
