use vstd::prelude::*;

verus! {

/// Why a mesh operation refused its input or could not answer.
#[derive(Clone, Copy, Debug, PartialEq, Eq, Structural)]
pub enum MeshError {
    /// A step, extent or radius that has to be positive (or, for the
    /// connection radius, non-negative) was not; or the draws for a random
    /// fill were too few, too many, or outside the box they were asked from.
    InputInvalid,
    /// A per-point statistic was asked of an empty point store.
    UndefinedStatistic,
}

impl MeshError {
    /// A short human-readable description of the error.
    pub fn message(&self) -> (text: &'static str)
        ensures
            text@ == (match *self {
                MeshError::InputInvalid => "input invalid: value out of range"@,
                MeshError::UndefinedStatistic => "statistic undefined: the point store is empty"@,
            }),
    {
        match self {
            MeshError::InputInvalid => "input invalid: value out of range",
            MeshError::UndefinedStatistic => "statistic undefined: the point store is empty",
        }
    }
}

} // verus!
