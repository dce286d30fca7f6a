//! Candidate edits: what the conflict solver chooses among.
use vstd::prelude::*;

use crate::text;
use crate::text::{normalize_label, str_eq};
use crate::zone::PolicyZone;

verus! {

/// How risky an edit is.
#[derive(Clone, Copy, Debug, PartialEq, Eq, Structural, PartialOrd, Ord, Hash)]
pub enum CandidateRiskTier {
    Low,
    Medium,
    High,
}

impl CandidateRiskTier {
    /// The rank by which lower risk wins a tie.
    pub open spec fn precedence(self) -> int {
        match self {
            CandidateRiskTier::Low => 3,
            CandidateRiskTier::Medium => 2,
            CandidateRiskTier::High => 1,
        }
    }

    /// The label of a tier.
    pub open spec fn label(self) -> Seq<char> {
        match self {
            CandidateRiskTier::Low => "low"@,
            CandidateRiskTier::Medium => "medium"@,
            CandidateRiskTier::High => "high"@,
        }
    }

    /// The tier that a label names, if any.
    pub open spec fn of_label(label: Seq<char>) -> Option<CandidateRiskTier> {
        if label == "low"@ {
            Some(CandidateRiskTier::Low)
        } else if label == "medium"@ {
            Some(CandidateRiskTier::Medium)
        } else if label == "high"@ {
            Some(CandidateRiskTier::High)
        } else {
            None
        }
    }

    pub fn precedence_score(&self) -> (r: u8)
        ensures
            r == self.precedence(),
    {
        match self {
            CandidateRiskTier::Low => 3,
            CandidateRiskTier::Medium => 2,
            CandidateRiskTier::High => 1,
        }
    }

    pub fn as_str(&self) -> (r: &'static str)
        ensures
            r@ == self.label(),
    {
        match self {
            CandidateRiskTier::Low => "low",
            CandidateRiskTier::Medium => "medium",
            CandidateRiskTier::High => "high",
        }
    }

    /// Reads a serialized tier: surrounding white space and ASCII case are
    /// ignored.
    pub fn from_serialized(value: &str) -> (r: Option<CandidateRiskTier>)
        ensures
            r == CandidateRiskTier::of_label(text::lower_chars(text::trimmed(value@))),
    {
        let label = normalize_label(value);
        let label = label.as_str();
        if str_eq(label, "low") {
            Some(CandidateRiskTier::Low)
        } else if str_eq(label, "medium") {
            Some(CandidateRiskTier::Medium)
        } else if str_eq(label, "high") {
            Some(CandidateRiskTier::High)
        } else {
            None
        }
    }

    /// Reading back what `as_str` wrote gives the tier again.
    pub proof fn lemma_label_round_trip(tier: CandidateRiskTier)
        ensures
            CandidateRiskTier::of_label(text::lower_chars(text::trimmed(tier.label()))) == Some(
                tier,
            ),
    {
        reveal_strlit("low");
        reveal_strlit("medium");
        reveal_strlit("high");
        text::lemma_plain_label(tier.label());
    }
}

impl Default for CandidateRiskTier {
    fn default() -> (r: CandidateRiskTier)
        ensures
            r == CandidateRiskTier::Medium,
    {
        CandidateRiskTier::Medium
    }
}

/// An edit that a policy proposes for one line, with what it touches.
///
/// `confidence` and `style_gain` are fixed-point numbers in billionths.
#[derive(Debug)]
pub struct PolicyEditCandidate {
    pub policy: String,
    pub line: usize,
    pub confidence: i64,
    pub style_gain: i64,
    pub risk_tier: CandidateRiskTier,
    pub impact_radius: usize,
    pub symbol_footprint: Vec<u64>,
    pub range_footprint: Vec<(usize, usize)>,
    pub hard_constraints_touched: u16,
    pub zone: PolicyZone,
    pub after_fingerprint: u64,
}

/// The contents of a `PolicyEditCandidate`.
pub ghost struct CandidateView {
    pub policy: Seq<char>,
    pub line: usize,
    pub confidence: i64,
    pub style_gain: i64,
    pub risk_tier: CandidateRiskTier,
    pub impact_radius: usize,
    pub symbol_footprint: Seq<u64>,
    pub range_footprint: Seq<(usize, usize)>,
    pub hard_constraints_touched: u16,
    pub zone: PolicyZone,
    pub after_fingerprint: u64,
}

impl View for PolicyEditCandidate {
    type V = CandidateView;

    open spec fn view(&self) -> CandidateView {
        CandidateView {
            policy: self.policy@,
            line: self.line,
            confidence: self.confidence,
            style_gain: self.style_gain,
            risk_tier: self.risk_tier,
            impact_radius: self.impact_radius,
            symbol_footprint: self.symbol_footprint@,
            range_footprint: self.range_footprint@,
            hard_constraints_touched: self.hard_constraints_touched,
            zone: self.zone,
            after_fingerprint: self.after_fingerprint,
        }
    }
}

/// A copy of a list of line ranges.
pub fn copy_ranges(ranges: &[(usize, usize)]) -> (r: Vec<(usize, usize)>)
    ensures
        r@ == ranges@,
{
    let mut r: Vec<(usize, usize)> = Vec::new();
    let mut i: usize = 0;
    while i < ranges.len()
        invariant
            i <= ranges@.len(),
            r@ == ranges@.take(i as int),
        decreases ranges@.len() - i,
    {
        r.push(ranges[i]);
        i += 1;
        assert(ranges@.take(i as int) =~= ranges@.take(i - 1).push(ranges@[i - 1]));
    }
    assert(ranges@.take(ranges@.len() as int) =~= ranges@);
    r
}

impl Clone for PolicyEditCandidate {
    fn clone(&self) -> (r: PolicyEditCandidate)
        ensures
            r@ == self@,
    {
        let symbols = self.symbol_footprint.clone();
        assert(symbols@ =~= self.symbol_footprint@);
        PolicyEditCandidate {
            policy: self.policy.clone(),
            line: self.line,
            confidence: self.confidence,
            style_gain: self.style_gain,
            risk_tier: self.risk_tier,
            impact_radius: self.impact_radius,
            symbol_footprint: symbols,
            range_footprint: copy_ranges(self.range_footprint.as_slice()),
            hard_constraints_touched: self.hard_constraints_touched,
            zone: self.zone,
            after_fingerprint: self.after_fingerprint,
        }
    }
}

/// What is done with a policy's result.
#[derive(Clone, Copy, Debug, PartialEq, Eq, Structural)]
pub enum PolicyDecisionOutcome {
    Apply,
    ApplyPartial,
    Block,
}

} // verus!
