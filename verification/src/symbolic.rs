//! The result type of the external symbolic equation simplifier.

use vstd::prelude::*;

verus! {

/// Simplified forms of the problem's equations, one per input equation.
pub struct ProcessedEquations {
    pub simplified_forms: Vec<String>,
}

} // verus!
