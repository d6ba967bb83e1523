//! The confidence specification: a level strictly between zero and one,
//! together with a sidedness flag.

use vstd::prelude::*;
use crate::fixed::{Fixed, SCALE};

verus! {

/// A confidence specification. The level is a fixed-point fraction
/// strictly between zero and one; the flag says whether the confidence
/// allowance is split across both tails or allocated entirely to one.
#[derive(Clone, Copy, Debug, PartialEq, Eq, Structural)]
pub struct Confidence {
    level: Fixed,
    two_sided: bool,
}

impl Confidence {
    /// The confidence level as a fixed-point fraction.
    pub closed spec fn spec_level(self) -> int {
        self.level.val()
    }

    /// Whether the specification is two-sided.
    pub closed spec fn spec_two_sided(self) -> bool {
        self.two_sided
    }

    /// Well-formedness: the level lies strictly between zero and one.
    pub open spec fn wf(self) -> bool {
        0 < self.spec_level() < SCALE
    }

    /// A two-sided specification. Constructing one with a level outside
    /// the open interval (0, 1) is a caller error.
    pub fn new_two_sided(level: Fixed) -> (r: Confidence)
        requires
            0 < level.val() < SCALE,
        ensures
            r.spec_level() == level.val(),
            r.spec_two_sided(),
            r.wf(),
    {
        Confidence { level, two_sided: true }
    }

    /// A one-sided specification. Constructing one with a level outside
    /// the open interval (0, 1) is a caller error.
    pub fn new_one_sided(level: Fixed) -> (r: Confidence)
        requires
            0 < level.val() < SCALE,
        ensures
            r.spec_level() == level.val(),
            !r.spec_two_sided(),
            r.wf(),
    {
        Confidence { level, two_sided: false }
    }

    /// The confidence level.
    pub fn level(self) -> (r: Fixed)
        ensures
            r.val() == self.spec_level(),
    {
        self.level
    }

    /// Whether the specification is two-sided.
    pub fn is_two_sided(self) -> (r: bool)
        ensures
            r == self.spec_two_sided(),
    {
        self.two_sided
    }
}

} // verus!
