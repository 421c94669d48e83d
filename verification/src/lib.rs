//! A schema-driven byte transcoder and a small grid-game simulation.
//!
//! The core is a tree-shaped decode program that walks a read-only input
//! buffer: discriminant bytes inside the buffer select among pre-declared
//! variant branches, contiguous byte ranges are bound as positional
//! variables, and bytes (copied or literal) are emitted to a single output
//! stream in pre-order over the instruction tree.

pub mod data;
pub mod dir;
pub mod game;
