//! Decoder core of a zero-knowledge virtual machine.
//!
//! Programs are trees of structured code blocks (`Span`, `Join`, `Split`,
//! `Loop`). The decoder walks such a tree, drives a stack-based processor
//! facade, and emits a 19-column execution trace whose columns satisfy the
//! algebraic constraints a STARK verifier later checks against the program's
//! structural digest.

pub mod blocks;
pub mod decoder;
pub mod field;
pub mod hasher;
pub mod laws;
pub mod ops;
pub mod process;
pub mod rows;
pub mod span;
pub mod stack;
pub mod trace;

pub use blocks::CodeBlock;
pub use decoder::Decoder;
pub use stack::{BlockInfo, BlockStack};
pub use field::{Felt, Word, FIELD_MODULUS};
pub use ops::Operation;
pub use process::{execute, ExecutionError, Process, ProgramInputs};
pub use span::{OpBatch, Span};
pub use trace::{DecoderTrace, MIN_TRACE_LEN, NUM_RAND_ROWS};
