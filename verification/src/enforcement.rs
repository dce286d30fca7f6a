//! How strictly a policy is enforced.
use vstd::prelude::*;

verus! {

/// The four tiers, from the strictest down.
#[derive(Clone, Copy, Debug, PartialEq, Eq, Structural, Hash)]
pub enum Enforcement {
    Must,
    Hard,
    Soft,
    Advisory,
}

impl Enforcement {
    /// The label of a tier.
    pub open spec fn label(self) -> Seq<char> {
        match self {
            Enforcement::Must => "must"@,
            Enforcement::Hard => "hard"@,
            Enforcement::Soft => "soft"@,
            Enforcement::Advisory => "advisory"@,
        }
    }

    /// The name under which a tier is shown.
    pub open spec fn shown(self) -> Seq<char> {
        match self {
            Enforcement::Must => "Must"@,
            Enforcement::Hard => "Hard"@,
            Enforcement::Soft => "Soft"@,
            Enforcement::Advisory => "Advisory"@,
        }
    }

    /// The name under which a tier is shown.
    pub fn display_name(self) -> (r: &'static str)
        ensures
            r@ == self.shown(),
    {
        match self {
            Enforcement::Must => "Must",
            Enforcement::Hard => "Hard",
            Enforcement::Soft => "Soft",
            Enforcement::Advisory => "Advisory",
        }
    }

    /// How strict a tier is: `Must` is strictest.
    pub open spec fn strictness(self) -> int {
        match self {
            Enforcement::Must => 3,
            Enforcement::Hard => 2,
            Enforcement::Soft => 1,
            Enforcement::Advisory => 0,
        }
    }
}

} // verus!
