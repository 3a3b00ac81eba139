//! An interpreter core for a minimal bracket-structured language that operates
//! on a single unbounded byte tape.
//!
//! The crate has two halves: a parser that turns source bytes into a nested
//! [`Program`] tree (folding runs of repeated operators into counted
//! commands), and an executor that walks such a tree against a mutable,
//! bidirectionally growing memory tape ([`State`]), reading bytes from an
//! [`InputSource`] and writing bytes to an [`OutputSink`].
//!
//! Everything the interpreter does is specified against a small mathematical
//! model: `sem` gives a fuel-indexed big-step semantics over ghost machines,
//! and `parser` gives a token-level model of folding and structural parsing.
//! The public functions carry contracts that tie the executable code exactly
//! to that model, and `laws` proves the global properties of the design
//! (a folded program behaves as its unfolded source, moving right then left
//! returns the cursor and preserves the tape, and so on).

pub mod laws;
pub mod parser;
pub mod program;
pub mod sem;
pub mod state;

pub use program::Command;
pub use program::ParseError;
pub use program::Program;
pub use state::InputSource;
pub use state::OutputSink;
pub use state::State;
