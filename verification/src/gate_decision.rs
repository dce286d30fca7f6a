//! The decision of the confidence gate, and the reasons for it.
use std::collections::BTreeSet;
use vstd::prelude::*;

use crate::edit_candidate::PolicyDecisionOutcome;
use crate::enforcement::Enforcement;
use crate::text;
use crate::text::join;

verus! {

/// Why the confidence gate decided as it did.
#[derive(Clone, Copy, Debug, PartialEq, Eq, Structural, Hash)]
pub enum ConfidenceReasonCode {
    TierAdjusted { from: Enforcement, to: Enforcement },
    LowConfidence,
    LowConsensus,
    ParserConsensusStrict,
    ParserHardened,
    ParserRelaxed,
    SemanticConsensusLow,
    ProjectEvidenceLow,
    ContextCoverageLow,
    SemanticMissing,
    ParserUnavailable,
    ParserDisagreement,
    ClangDiagnostics,
    HybridRecovery,
    RetrySafetyHarden,
    ClusterAdaptiveRelaxed,
    ClusterAdaptiveHardened,
    Stable,
}

impl ConfidenceReasonCode {
    /// The text of a reason.
    pub open spec fn rendered(self) -> Seq<char> {
        match self {
            ConfidenceReasonCode::TierAdjusted { from, to } => "tier_adjusted:"@ + from.label()
                + "->"@ + to.label(),
            ConfidenceReasonCode::LowConfidence => "low_confidence"@,
            ConfidenceReasonCode::LowConsensus => "low_consensus"@,
            ConfidenceReasonCode::ParserConsensusStrict => "parser_consensus_strict"@,
            ConfidenceReasonCode::ParserHardened => "parser_hardened"@,
            ConfidenceReasonCode::ParserRelaxed => "parser_relaxed"@,
            ConfidenceReasonCode::SemanticConsensusLow => "semantic_consensus_low"@,
            ConfidenceReasonCode::ProjectEvidenceLow => "project_evidence_low"@,
            ConfidenceReasonCode::ContextCoverageLow => "context_coverage_low"@,
            ConfidenceReasonCode::SemanticMissing => "semantic_missing"@,
            ConfidenceReasonCode::ParserUnavailable => "parser_unavailable"@,
            ConfidenceReasonCode::ParserDisagreement => "parser_disagreement"@,
            ConfidenceReasonCode::ClangDiagnostics => "clang_diagnostics"@,
            ConfidenceReasonCode::HybridRecovery => "hybrid_recovery"@,
            ConfidenceReasonCode::RetrySafetyHarden => "retry_safety_harden"@,
            ConfidenceReasonCode::ClusterAdaptiveRelaxed => "cluster_adaptive_relaxed"@,
            ConfidenceReasonCode::ClusterAdaptiveHardened => "cluster_adaptive_hardened"@,
            ConfidenceReasonCode::Stable => "stable"@,
        }
    }

    pub fn render(&self) -> (r: String)
        ensures
            r@ == self.rendered(),
    {
        match self {
            ConfidenceReasonCode::TierAdjusted { from, to } => {
                let mut r = "tier_adjusted:".to_owned();
                r.append(Self::enforcement_label(*from));
                r.append("->");
                r.append(Self::enforcement_label(*to));
                r
            },
            ConfidenceReasonCode::LowConfidence => "low_confidence".to_owned(),
            ConfidenceReasonCode::LowConsensus => "low_consensus".to_owned(),
            ConfidenceReasonCode::ParserConsensusStrict => "parser_consensus_strict".to_owned(),
            ConfidenceReasonCode::ParserHardened => "parser_hardened".to_owned(),
            ConfidenceReasonCode::ParserRelaxed => "parser_relaxed".to_owned(),
            ConfidenceReasonCode::SemanticConsensusLow => "semantic_consensus_low".to_owned(),
            ConfidenceReasonCode::ProjectEvidenceLow => "project_evidence_low".to_owned(),
            ConfidenceReasonCode::ContextCoverageLow => "context_coverage_low".to_owned(),
            ConfidenceReasonCode::SemanticMissing => "semantic_missing".to_owned(),
            ConfidenceReasonCode::ParserUnavailable => "parser_unavailable".to_owned(),
            ConfidenceReasonCode::ParserDisagreement => "parser_disagreement".to_owned(),
            ConfidenceReasonCode::ClangDiagnostics => "clang_diagnostics".to_owned(),
            ConfidenceReasonCode::HybridRecovery => "hybrid_recovery".to_owned(),
            ConfidenceReasonCode::RetrySafetyHarden => "retry_safety_harden".to_owned(),
            ConfidenceReasonCode::ClusterAdaptiveRelaxed => "cluster_adaptive_relaxed".to_owned(),
            ConfidenceReasonCode::ClusterAdaptiveHardened => "cluster_adaptive_hardened".to_owned(),
            ConfidenceReasonCode::Stable => "stable".to_owned(),
        }
    }

    pub fn enforcement_label(value: Enforcement) -> (r: &'static str)
        ensures
            r@ == value.label(),
    {
        match value {
            Enforcement::Must => "must",
            Enforcement::Hard => "hard",
            Enforcement::Soft => "soft",
            Enforcement::Advisory => "advisory",
        }
    }
}

/// What the confidence gate decided for a policy.
///
/// `score` and `threshold` are rendered with two decimals.
#[derive(Debug)]
pub struct ConfidenceGateDecision {
    pub outcome: PolicyDecisionOutcome,
    /// The score as it is shown.
    pub score: String,
    /// The score in billionths.
    pub score_amount: i64,
    /// The threshold as it is shown.
    pub threshold: String,
    pub base_enforcement: Enforcement,
    pub effective_enforcement: Enforcement,
    pub reason_codes: Vec<ConfidenceReasonCode>,
    pub dropped_lines: BTreeSet<usize>,
}

/// The texts of a list of reasons.
pub open spec fn rendered_all(codes: Seq<ConfidenceReasonCode>) -> Seq<Seq<char>> {
    codes.map_values(|code: ConfidenceReasonCode| code.rendered())
}

impl ConfidenceGateDecision {
    pub fn render_reason_codes(&self) -> (r: Vec<String>)
        ensures
            text::views(r@) == rendered_all(self.reason_codes@),
    {
        let mut r: Vec<String> = Vec::new();
        let mut i: usize = 0;
        while i < self.reason_codes.len()
            invariant
                i <= self.reason_codes@.len(),
                r@.len() == i,
                forall|k: int|
                    0 <= k < i ==> (#[trigger] r@[k])@ == self.reason_codes@[k].rendered(),
            decreases self.reason_codes@.len() - i,
        {
            r.push(self.reason_codes[i].render());
            i += 1;
        }
        assert(text::views(r@) =~= rendered_all(self.reason_codes@));
        r
    }

    pub fn rendered_reason_summary(&self) -> (r: String)
        ensures
            r@ == if self.reason_codes@.len() == 0 {
                "stable"@
            } else {
                text::joined(rendered_all(self.reason_codes@), ","@)
            },
    {
        let rendered = self.render_reason_codes();
        assert(text::views(rendered@).len() == self.reason_codes@.len());
        if rendered.is_empty() {
            "stable".to_owned()
        } else {
            join(rendered.as_slice(), ",")
        }
    }
}

} // verus!
