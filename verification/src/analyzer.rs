//! The semantic analyzer: validates a parsed program into the IR.
//!
//! The current language defines no checks beyond the parser's, so the
//! analyzer is the identity transform and always succeeds; it is the
//! extension point for future invariants.

use vstd::prelude::*;

use crate::ast::{Ir, Program};

verus! {

/// A semantic failure; no current check produces one.
#[derive(PartialEq, Eq, Structural, Clone, Copy, Debug)]
pub struct SemanticError;

/// Consumes the program and returns it unchanged as the IR.
pub fn analyze_semantic(p: Program) -> (r: Result<Ir, SemanticError>)
    ensures
        r == Result::<Ir, SemanticError>::Ok(p),
{
    Ok(p)
}

} // verus!
