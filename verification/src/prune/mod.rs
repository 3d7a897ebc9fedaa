//! Pruning tables for the search.
pub mod map;
pub mod map_bytes;
pub mod table;
pub mod trie;

pub use map::PruningMap;
pub use table::{PruningTable, PruningTables};
pub use trie::SubsetTrie;
