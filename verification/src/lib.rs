//! Turn-based rules engines for three games — tic-tac-toe, the grid-removal
//! game marooned, and the seeded card game crazy eights — all presenting one
//! state-machine shape: construction (optionally from validated settings),
//! turn and status queries, action legality, append-only history, undo by
//! replay, and lossless text and binary serialization of every reachable
//! state.

pub mod codec;
pub mod common;
pub mod crazy_eights;
pub mod marooned;
pub mod tic_tac_toe;
