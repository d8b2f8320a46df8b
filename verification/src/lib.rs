//! A Boggle-style word search library.
//!
//! A dictionary is held in a prefix tree over the letters `a`..`z`; a solver
//! walks a rectangular letter board along king-move adjacent, non-repeating
//! cell paths and collects every dictionary word of more than two characters
//! that some path spells.

pub mod trie;
pub mod solver;
