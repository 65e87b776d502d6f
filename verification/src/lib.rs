//! Konfi: a small declarative configuration language.
//!
//! Source text is parsed into an expression tree and evaluated into a single
//! value. Record fields are resolved lazily, out of declaration order, and
//! each field's value is memoized the first time it is computed.

use vstd::prelude::*;

pub mod ast;
pub mod chars;
pub mod eval;
pub mod oop;
pub mod parser;
pub mod strings;
pub mod text;

verus! {

/// The greatest recursion depth the evaluator will follow before it gives up.
pub const DEFAULT_FUEL: u64 = 4096;

} // verus!
