//! Semantic core of a small compiler for a custom imperative language.
//!
//! Given the position-tagged syntax trees of a program's files, it builds
//! the module tree with each module's export table, checks every function
//! body against the declared signatures and the fixed table of intrinsics,
//! and links the reachable functions into one list with unique emitted names.
use vstd::prelude::*;

pub mod ast;
pub mod fs;
pub mod linker;
pub mod module;
pub mod names;
pub mod rename;
pub mod resolution;
pub mod scope;
pub mod text;
pub mod tokens;
pub mod typecheck;
pub mod types;

pub use typecheck::typecheck;

verus! {

} // verus!
