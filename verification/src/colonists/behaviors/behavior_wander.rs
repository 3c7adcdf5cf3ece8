use vstd::prelude::*;

verus! {

/// Scores wandering about.
#[derive(Clone, Copy)]
pub struct ScorerWander;

} // verus!
