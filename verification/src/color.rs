use vstd::prelude::*;

pub mod palette;
pub mod scale;

use crate::color::palette::Palette;
use crate::color::scale::ColorScale;

verus! {

/// An exact fraction in the unit interval `[0, 1]`, written `num / den`.
///
/// Normalized visit counts travel through the coloring pipeline as values of
/// this type: the scale stage produces one from a raw count, and the palette
/// stage turns one into a color. Keeping the value as an integer pair makes
/// every later comparison and interpolation exact.
#[derive(Clone, Copy, Debug, PartialEq, Eq, Structural)]
pub struct ScaleValue {
    pub num: u64,
    pub den: u64,
}

impl ScaleValue {
    /// A well-formed value denotes a fraction in `[0, 1]`.
    pub open spec fn wf(self) -> bool {
        1 <= self.den && self.num <= self.den
    }

    /// The denoted fraction is zero.
    pub open spec fn is_zero(self) -> bool {
        self.num == 0
    }

    /// The denoted fraction is one.
    pub open spec fn is_one(self) -> bool {
        self.num == self.den
    }

    /// The exact value 0.
    pub fn zero() -> (r: ScaleValue)
        ensures
            r.wf(),
            r.is_zero(),
            r == (ScaleValue { num: 0, den: 1 }),
    {
        ScaleValue { num: 0, den: 1 }
    }

    /// The exact value 1.
    pub fn one() -> (r: ScaleValue)
        ensures
            r.wf(),
            r.is_one(),
            r == (ScaleValue { num: 1, den: 1 }),
    {
        ScaleValue { num: 1, den: 1 }
    }
}

/// The two halves of a renderer's coloring pipeline, as loaded from
/// configuration: how counts are normalized and how normalized values
/// become colors.
pub struct ColorConfig {
    pub palette: Palette,
    pub scale: ColorScale,
}

} // verus!
