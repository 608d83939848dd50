//! A piece table: a text buffer kept as an original buffer, an append-only add
//! buffer and a red-black tree of pieces that refer to both.

pub mod lines;
pub mod utf8_text;
pub mod piece;
pub mod buffer;
pub mod arena;
pub mod shape;
pub mod shape_facts;
pub mod doc;
pub mod tree;
pub mod rebalance;
pub mod metadata;
pub mod attach;
pub mod balance;
pub mod navigate;
pub mod edit;
pub mod read;
pub mod detach;
pub mod erase;
pub mod position;
pub mod laws;
pub mod aligned;
pub mod file;
pub mod coloring;
pub mod relabel;
pub mod opening;
pub mod deficit;
