use vstd::prelude::*;

verus! {

/// The index of a scorer's builder in its thinker.
pub struct ScoreBuilderRef(pub usize);

/// Registers the scorers.
pub struct ScorerPlugin;

} // verus!
