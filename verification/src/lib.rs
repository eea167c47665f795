//! Enumeration of dictionary words spelled by self-avoiding walks over the
//! Moore-adjacent cells of a character board.
//!
//! The board's cells, enumerated row-major, become the nodes of an
//! undirected graph with one edge per adjacent pair.  A radix trie answers
//! exact-membership and prefix-liveness queries over the dictionary.  The
//! search walks every origin depth first on an explicit stack of persistent,
//! shared-tail path links, prunes extensions whose string no stored word
//! begins with, and emits every discovery of a stored word longer than three
//! characters.  The emitted sequence is proved equal to a specification-level
//! traversal, so the output and its order are a function of the board and the
//! dictionary alone.

pub mod dict;
pub mod display;
pub mod engine;
pub mod graph;
pub mod grid;
pub mod path;
