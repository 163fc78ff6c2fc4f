//! The planets the ephemeris places relative to the Earth, in solar-distance
//! order, and their display names.

use vstd::prelude::*;

verus! {

/// A VSOP87 planet other than the Earth.
#[derive(Debug, Clone, Copy, PartialEq, Eq, Structural)]
pub enum Planet {
    Mercury,
    Venus,
    Mars,
    Jupiter,
    Saturn,
    Uranus,
    Neptune,
}

impl Planet {
    /// Mercury to Neptune, in solar-distance order, the order positions are
    /// reported in.
    pub fn all() -> (r: [Planet; 7])
        ensures
            r@ == seq![
                Planet::Mercury,
                Planet::Venus,
                Planet::Mars,
                Planet::Jupiter,
                Planet::Saturn,
                Planet::Uranus,
                Planet::Neptune,
            ],
    {
        let r = [
            Planet::Mercury,
            Planet::Venus,
            Planet::Mars,
            Planet::Jupiter,
            Planet::Saturn,
            Planet::Uranus,
            Planet::Neptune,
        ];
        assert(r@ =~= seq![
            Planet::Mercury,
            Planet::Venus,
            Planet::Mars,
            Planet::Jupiter,
            Planet::Saturn,
            Planet::Uranus,
            Planet::Neptune,
        ]);
        r
    }

    /// The display name of the planet.
    pub open spec fn spec_name(self) -> Seq<char> {
        match self {
            Planet::Mercury => "Mercury"@,
            Planet::Venus => "Venus"@,
            Planet::Mars => "Mars"@,
            Planet::Jupiter => "Jupiter"@,
            Planet::Saturn => "Saturn"@,
            Planet::Uranus => "Uranus"@,
            Planet::Neptune => "Neptune"@,
        }
    }

    /// The display name used in reported positions.
    pub fn name(self) -> (r: &'static str)
        ensures
            r@ == self.spec_name(),
    {
        match self {
            Planet::Mercury => "Mercury",
            Planet::Venus => "Venus",
            Planet::Mars => "Mars",
            Planet::Jupiter => "Jupiter",
            Planet::Saturn => "Saturn",
            Planet::Uranus => "Uranus",
            Planet::Neptune => "Neptune",
        }
    }
}

} // verus!
