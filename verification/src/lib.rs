//! Value-semantics handles for a multiprecision arithmetic layer.
//!
//! The crate centers on the ownership model around heap-backed numeric
//! state: every handle owns its storage exclusively, duplication goes
//! through an explicit `clone`, and release happens exactly once, by move.
//! On top of that sit a terminator-ended string wrapper with a checked text
//! view, and a deterministic random generator whose draws are pinned down
//! exactly by their contracts.

pub mod gstring;
pub mod mpz;
pub mod rand;
pub mod sign;
