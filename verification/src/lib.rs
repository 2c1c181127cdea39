//! Verified core of a grid-puzzle solving toolkit.
//!
//! The heart of the crate is a shape canonicalizer for polyominoes under the
//! eight symmetries of the square lattice (`canon`), and an incremental
//! constraint propagator (`propagator`) that a search engine drives through
//! notify/undo calls and consults to detect when two black-adjacent, fully
//! decided rooms resolve to the same canonical shape.
//!
//! Around that core, `puzzles` holds the piece tables, clue encodings, and
//! problem data of the individual puzzles, and `board` and `backend` turn a
//! puzzle's problem and the answer a solver produced into a flat list of
//! drawing items.  The boolean constraint engine that searches for answers
//! is an external collaborator and is not part of this crate.

pub mod backend;
pub mod board;
pub mod canon;
pub mod propagator;
pub mod puzzles;
