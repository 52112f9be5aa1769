//! A red-black tree map with verified contracts: entries stay sorted by key,
//! the red-black properties hold after every operation, and each operation's
//! effect on the ordered sequence of entries is stated exactly.
pub mod order;
pub mod node;
pub mod seqs;
pub mod insert;
pub mod search;
pub mod delete;
pub mod sorting;
pub mod tree;

pub use tree::RedBlackTree;
pub use node::Color;
