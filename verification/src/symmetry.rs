use vstd::prelude::*;

verus! {

/// A finite symmetry group over the plane: `n` evenly spaced rotations
/// (Cyclic), optionally joined by a reflection across the real axis
/// (Dihedral). Figures draw one uniformly random group element per step.
#[derive(Clone, Copy, Debug, PartialEq, Eq, Structural)]
pub enum Symmetry {
    Dihedral(u32),
    Cyclic(u32),
}

/// Relies on rand::random_range: the result is drawn from `0 .. n`, and the
/// range is non-empty, so the call cannot panic.
#[verifier::external_body]
fn random_below(n: u32) -> (r: u32)
    requires
        1 <= n,
    ensures
        r < n,
{
    rand::random_range(0..n)
}

/// Relies on rand::random_ratio with ratio 1/2: a fair coin. Nothing can be
/// promised about a single outcome.
#[verifier::external_body]
fn random_coin() -> bool {
    rand::random_ratio(1, 2)
}

impl Symmetry {
    /// The group's rotation count.
    pub open spec fn spec_degree(self) -> u32 {
        match self {
            Symmetry::Cyclic(n) => n,
            Symmetry::Dihedral(n) => n,
        }
    }

    /// A group needs at least one rotation to draw from.
    pub open spec fn wf(self) -> bool {
        1 <= self.spec_degree()
    }

    pub fn get_degree(&self) -> (r: u32)
        ensures
            r == self.spec_degree(),
    {
        match self {
            Symmetry::Cyclic(n) => *n,
            Symmetry::Dihedral(n) => *n,
        }
    }

    /// Draws the random group element for one step: the index of one of the
    /// `n` rotations, and whether to reflect afterward. A cyclic group never
    /// reflects; a dihedral group tosses a fair coin, and the rotation index
    /// stays below the degree whatever the generator returned.
    pub fn draw_transform(&self) -> (r: (u32, bool))
        requires
            self.wf(),
        ensures
            r.0 < self.spec_degree(),
            self is Cyclic ==> r.1 == false,
    {
        match self {
            Symmetry::Cyclic(n) => (random_below(*n), false),
            Symmetry::Dihedral(n) => (random_below(*n), random_coin()),
        }
    }
}

} // verus!
