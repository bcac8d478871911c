//! An execution engine for a minimal imperative language over a bounded
//! tape of signed byte cells: a syntax pre-check on bracket counts, a
//! data pointer with strict bounds, fail-fast cell arithmetic, bracket-jump
//! resolution by nesting depth, and a fetch-dispatch-execute loop whose
//! behaviour is pinned to a small-step abstract machine.

pub mod error;
pub mod interp;
pub mod semantics;
