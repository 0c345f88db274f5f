use vstd::prelude::*;

verus! {

/// Weights of the four scores in a placement's total score.
#[derive(Clone, Copy)]
pub struct ScoreWeights {
    pub heat: i32,
    pub blocking: i32,
    pub expansion: i32,
    pub efficiency: i32,
}

impl ScoreWeights {
    pub open spec fn spec_standard() -> ScoreWeights {
        ScoreWeights { heat: 100, blocking: 20, expansion: 5, efficiency: 10 }
    }

    /// The weights the bot plays with: heat dominates, then blocking, then
    /// piece size, then room to expand.
    pub fn standard() -> (r: Self)
        ensures
            r == ScoreWeights::spec_standard(),
    {
        ScoreWeights { heat: 100, blocking: 20, expansion: 5, efficiency: 10 }
    }
}

} // verus!
