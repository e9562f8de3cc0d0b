//! A verified Minesweeper engine.
//!
//! The library models the board as flat arrays indexed by `row * cols + col`
//! and proves the core guarantees of the game: safe first-click
//! initialization, neighbor-count correctness, flood-opening of zero-count
//! regions, flag-gated chording, win detection, and the anti-guess mine
//! relocation that never contradicts already-revealed counts.

pub mod antiguess;
pub mod board;
pub mod cell;
pub mod flood;
pub mod grid;
pub mod mines;
pub mod rng;
pub mod shared;
