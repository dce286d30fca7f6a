//! The accuracy gate, which compares what was accepted with what was attempted.
//!
//! Thresholds are fixed-point numbers in billionths; the measured
//! rates are exact fractions.
use vstd::prelude::*;

use crate::compdb::SemanticCompdbContextKind;
use crate::text;
use crate::text::join;

verus! {

/// One whole, in the units of a threshold.
pub const WHOLE: u32 = 1_000_000_000;

/// What the accuracy gate demands.
#[derive(Clone, Copy, Debug, PartialEq, Eq, Structural)]
pub struct AccuracyGateConfig {
    pub enabled: bool,
    pub fail_closed: bool,
    pub semantic_required: bool,
    pub min_precision: u32,
    pub min_recall: u32,
    pub min_samples: usize,
}

impl Default for AccuracyGateConfig {
    /// A setting that demands nothing.
    fn default() -> (r: AccuracyGateConfig)
        ensures
            !r.enabled && !r.fail_closed && !r.semantic_required,
            r.min_precision == 0 && r.min_recall == 0 && r.min_samples == 0,
    {
        AccuracyGateConfig {
            enabled: false,
            fail_closed: false,
            semantic_required: false,
            min_precision: 0,
            min_recall: 0,
            min_samples: 0,
        }
    }
}

/// What happened to a file.
#[derive(Clone, Copy, Debug, PartialEq, Eq, Structural)]
pub struct AccuracyGateInput {
    pub semantic_ready: bool,
    pub attempted_edits: usize,
    pub attempted_violations: usize,
    pub accepted_edits: usize,
    pub semantic_context_kind: SemanticCompdbContextKind,
}

#[derive(Clone, Copy, Debug, PartialEq, Eq, Structural)]
pub enum AccuracyGateStatus {
    Passed,
    WarningOnly,
    FailedClosed,
}

/// A rate, as a fraction of at most one.
#[derive(Clone, Copy, Debug, PartialEq, Eq, Structural)]
pub struct Rate {
    pub part: usize,
    pub whole: usize,
}

impl Rate {
    pub open spec fn wf(self) -> bool {
        self.part <= self.whole && self.whole > 0
    }

    /// Whether the rate is below a threshold.
    pub open spec fn below(self, minimum: u32) -> bool {
        self.part * WHOLE < minimum * self.whole
    }

    /// `part` of `whole`, but never more than all of it.
    pub open spec fn of(part: usize, whole: usize) -> Rate {
        Rate {
            part: if part <= whole {
                part
            } else {
                whole
            },
            whole,
        }
    }

    /// The rate of one.
    pub open spec fn full() -> Rate {
        Rate { part: 1, whole: 1 }
    }

    pub fn is_below(&self, minimum: u32) -> (r: bool)
        ensures
            r == self.below(minimum),
    {
        let part: u128 = self.part as u128;
        let whole: u128 = self.whole as u128;
        let least: u128 = minimum as u128;
        let unit: u128 = WHOLE as u128;
        assert(0 <= part * unit <= 0x1_0000_0000_0000_0000 * 1_000_000_000) by (nonlinear_arith)
            requires
                0 <= part <= 0x1_0000_0000_0000_0000,
                unit == 1_000_000_000,
        ;
        assert(0 <= least * whole <= 0x1_0000_0000 * 0x1_0000_0000_0000_0000) by (nonlinear_arith)
            requires
                0 <= whole <= 0x1_0000_0000_0000_0000,
                0 <= least <= 0x1_0000_0000,
        ;
        part * unit < least * whole
    }
}

/// Why the accuracy gate did not simply pass.
#[derive(Clone, Copy, Debug, PartialEq, Eq, Structural)]
pub enum AccuracyGateReason {
    SemanticRequiredUnmet,
    PrecisionBelowThreshold { actual: Rate, minimum: u32 },
    RecallBelowThreshold { actual: Rate, minimum: u32 },
    FailClosedRelaxedForPairedSourceHeuristic,
    FailClosedRelaxedForConsensusContext,
    FailClosedRelaxedForTreeOnlyContext,
}

impl AccuracyGateReason {
    /// The text of a reason, given the texts of its two numbers.
    pub open spec fn rendered(self, actual: Seq<char>, minimum: Seq<char>) -> Seq<char> {
        match self {
            AccuracyGateReason::SemanticRequiredUnmet => "semantic_required_unmet"@,
            AccuracyGateReason::PrecisionBelowThreshold { .. } => "precision_below_threshold("@
                + actual + " < "@ + minimum + ")"@,
            AccuracyGateReason::RecallBelowThreshold { .. } => "recall_below_threshold("@ + actual
                + " < "@ + minimum + ")"@,
            AccuracyGateReason::FailClosedRelaxedForPairedSourceHeuristic =>
                "fail_closed_relaxed_for_paired_source_heuristic"@,
            AccuracyGateReason::FailClosedRelaxedForConsensusContext =>
                "fail_closed_relaxed_for_consensus_context"@,
            AccuracyGateReason::FailClosedRelaxedForTreeOnlyContext =>
                "fail_closed_relaxed_for_tree_only_context"@,
        }
    }

    /// Writes a reason; `actual` and `minimum` are the texts of the two rates
    /// that a missed threshold names.
    pub fn render(&self, actual: &str, minimum: &str) -> (r: String)
        ensures
            r@ == self.rendered(actual@, minimum@),
    {
        match self {
            AccuracyGateReason::SemanticRequiredUnmet => "semantic_required_unmet".to_owned(),
            AccuracyGateReason::PrecisionBelowThreshold { .. } => {
                let mut r = "precision_below_threshold(".to_owned();
                r.append(actual);
                r.append(" < ");
                r.append(minimum);
                r.append(")");
                r
            },
            AccuracyGateReason::RecallBelowThreshold { .. } => {
                let mut r = "recall_below_threshold(".to_owned();
                r.append(actual);
                r.append(" < ");
                r.append(minimum);
                r.append(")");
                r
            },
            AccuracyGateReason::FailClosedRelaxedForPairedSourceHeuristic =>
                "fail_closed_relaxed_for_paired_source_heuristic".to_owned(),
            AccuracyGateReason::FailClosedRelaxedForConsensusContext =>
                "fail_closed_relaxed_for_consensus_context".to_owned(),
            AccuracyGateReason::FailClosedRelaxedForTreeOnlyContext =>
                "fail_closed_relaxed_for_tree_only_context".to_owned(),
        }
    }
}

/// What the accuracy gate decided.
#[derive(Debug)]
pub struct AccuracyGateDecision {
    pub status: AccuracyGateStatus,
    pub precision: Rate,
    pub recall: Rate,
    pub reasons: Vec<AccuracyGateReason>,
}

/// The text of a list of rendered reasons.
pub open spec fn reason_summary(rendered: Seq<Seq<char>>) -> Seq<char> {
    if rendered.len() == 0 {
        "unknown"@
    } else {
        text::joined(rendered, ","@)
    }
}

impl AccuracyGateDecision {
    pub fn passed(&self) -> (r: bool)
        ensures
            r == (self.status == AccuracyGateStatus::Passed),
    {
        self.status == AccuracyGateStatus::Passed
    }

    /// Joins the rendered reasons of a decision.
    pub fn rendered_reason_summary(rendered: &[String]) -> (r: String)
        ensures
            r@ == reason_summary(text::views(rendered@)),
    {
        assert(text::views(rendered@).len() == rendered@.len());
        if rendered.len() == 0 {
            "unknown".to_owned()
        } else {
            join(rendered, ",")
        }
    }

    /// The line that sums a decision up, given the texts of its parts.
    pub fn summary(precision: &str, recall: &str, rendered: &[String]) -> (r: String)
        ensures
            r@ == "accuracy_gate: precision="@ + precision@ + " recall="@ + recall@ + " reasons=["@
                + reason_summary(text::views(rendered@)) + "]"@,
    {
        let mut r = "accuracy_gate: precision=".to_owned();
        r.append(precision);
        r.append(" recall=");
        r.append(recall);
        r.append(" reasons=[");
        r.append(Self::rendered_reason_summary(rendered).as_str());
        r.append("]");
        r
    }
}

/// Why a run was stopped.
#[derive(Debug)]
pub enum AccuracyGateFailureKind {
    SemanticRequiredUnmet { detail: String },
    ThresholdMiss,
}

/// A run that the accuracy gate stopped.
#[derive(Debug)]
pub struct AccuracyGateFailure {
    pub path: String,
    pub decision: AccuracyGateDecision,
    pub kind: AccuracyGateFailureKind,
}

impl AccuracyGateFailure {
    pub fn semantic_required_unmet(
        path: &str,
        detail: &str,
        decision: AccuracyGateDecision,
    ) -> (r: AccuracyGateFailure)
        ensures
            r.path@ == path@,
            r.decision == decision,
            r.kind is SemanticRequiredUnmet,
            r.kind->detail@ == detail@,
    {
        AccuracyGateFailure {
            path: path.to_owned(),
            decision,
            kind: AccuracyGateFailureKind::SemanticRequiredUnmet { detail: detail.to_owned() },
        }
    }

    pub fn threshold_miss(path: &str, decision: AccuracyGateDecision) -> (r: AccuracyGateFailure)
        ensures
            r.path@ == path@,
            r.decision == decision,
            r.kind is ThresholdMiss,
    {
        AccuracyGateFailure {
            path: path.to_owned(),
            decision,
            kind: AccuracyGateFailureKind::ThresholdMiss,
        }
    }

    pub fn decision(&self) -> (r: &AccuracyGateDecision)
        ensures
            *r == self.decision,
    {
        &self.decision
    }

    /// The message of a failure, given the text that sums its decision up.
    pub fn message(&self, summary: &str) -> (r: String)
        ensures
            r@ == match self.kind {
                AccuracyGateFailureKind::SemanticRequiredUnmet { detail } =>
                    "accuracy gate fail-closed: semantic_required unmet for "@ + self.path@ + " ("@
                    + detail@ + ")"@,
                AccuracyGateFailureKind::ThresholdMiss => "accuracy gate fail-closed for "@
                    + self.path@ + ": "@ + summary@,
            },
    {
        match &self.kind {
            AccuracyGateFailureKind::SemanticRequiredUnmet { detail } => {
                let mut r = "accuracy gate fail-closed: semantic_required unmet for ".to_owned();
                r.append(self.path.as_str());
                r.append(" (");
                r.append(detail.as_str());
                r.append(")");
                r
            },
            AccuracyGateFailureKind::ThresholdMiss => {
                let mut r = "accuracy gate fail-closed for ".to_owned();
                r.append(self.path.as_str());
                r.append(": ");
                r.append(summary);
                r
            },
        }
    }
}

/// The share of the attempted edits that was accepted; all of it where none
/// was attempted.
pub open spec fn precision_of(input: AccuracyGateInput) -> Rate {
    if input.attempted_edits == 0 {
        Rate::full()
    } else {
        Rate::of(input.accepted_edits, input.attempted_edits)
    }
}

/// The share of the violations that was dealt with. One edit may answer several
/// violations, so no more of them are asked for than edits were attempted.
pub open spec fn recall_of(input: AccuracyGateInput) -> Rate {
    if input.attempted_violations == 0 || input.attempted_edits == 0 {
        Rate::full()
    } else {
        Rate::of(
            input.accepted_edits,
            if input.attempted_violations <= input.attempted_edits {
                input.attempted_violations
            } else {
                input.attempted_edits
            },
        )
    }
}

/// Whether there are samples enough to hold the rates against the thresholds.
pub open spec fn checks_thresholds(config: AccuracyGateConfig, input: AccuracyGateInput) -> bool {
    config.enabled && input.attempted_edits + input.attempted_violations >= config.min_samples
}

/// What speaks against passing.
pub open spec fn objections(
    config: AccuracyGateConfig,
    input: AccuracyGateInput,
) -> Seq<AccuracyGateReason> {
    let unmet = config.semantic_required && !input.semantic_ready;
    let checked = checks_thresholds(config, input);
    let imprecise = checked && precision_of(input).below(config.min_precision);
    let incomplete = checked && recall_of(input).below(config.min_recall);
    let first = if unmet {
        seq![AccuracyGateReason::SemanticRequiredUnmet]
    } else {
        Seq::empty()
    };
    let second = if imprecise {
        first.push(
            AccuracyGateReason::PrecisionBelowThreshold {
                actual: precision_of(input),
                minimum: config.min_precision,
            },
        )
    } else {
        first
    };
    if incomplete {
        second.push(
            AccuracyGateReason::RecallBelowThreshold {
                actual: recall_of(input),
                minimum: config.min_recall,
            },
        )
    } else {
        second
    }
}

/// Whether a reason is a missed threshold.
pub open spec fn is_threshold_miss(reason: AccuracyGateReason) -> bool {
    reason is PrecisionBelowThreshold || reason is RecallBelowThreshold
}

/// How many of the reasons are missed thresholds.
pub open spec fn threshold_misses(reasons: Seq<AccuracyGateReason>) -> nat
    decreases reasons.len(),
{
    if reasons.len() == 0 {
        0
    } else {
        threshold_misses(reasons.drop_last()) + if is_threshold_miss(reasons.last()) {
            1nat
        } else {
            0
        }
    }
}

/// Why a gate that fails closed lets a file through with a warning all the
/// same: its context is not exact. Two missed thresholds, with the semantic
/// demand met, are too much for a context taken from a paired source.
pub open spec fn relaxation(
    kind: SemanticCompdbContextKind,
    reasons: Seq<AccuracyGateReason>,
) -> Option<AccuracyGateReason> {
    if reasons.len() == 0 {
        None
    } else {
        match kind {
            SemanticCompdbContextKind::Exact => None,
            SemanticCompdbContextKind::PairedSourceHeuristic => {
                if !reasons.contains(AccuracyGateReason::SemanticRequiredUnmet)
                    && threshold_misses(reasons) >= 2 {
                    None
                } else {
                    Some(AccuracyGateReason::FailClosedRelaxedForPairedSourceHeuristic)
                }
            },
            SemanticCompdbContextKind::HeaderConsensus
            | SemanticCompdbContextKind::SourceConsensus => Some(
                AccuracyGateReason::FailClosedRelaxedForConsensusContext,
            ),
            SemanticCompdbContextKind::Absent => Some(
                AccuracyGateReason::FailClosedRelaxedForTreeOnlyContext,
            ),
        }
    }
}

/// Whether a decision is the one that the accuracy gate makes: it passes where nothing
/// speaks against it; where something does, it warns, or, if it is to fail
/// closed and no reason to relax is found, it fails.
pub open spec fn is_gate_decision(
    r: AccuracyGateDecision,
    config: AccuracyGateConfig,
    input: AccuracyGateInput,
) -> bool {
    let reasons = objections(config, input);
    let relaxed = relaxation(input.semantic_context_kind, reasons);
    &&& r.precision == precision_of(input)
    &&& r.recall == recall_of(input)
    &&& if reasons.len() == 0 {
        r.status == AccuracyGateStatus::Passed && r.reasons@ == reasons
    } else if !config.fail_closed {
        r.status == AccuracyGateStatus::WarningOnly && r.reasons@ == reasons
    } else if relaxed is Some {
        r.status == AccuracyGateStatus::WarningOnly && r.reasons@ == reasons.push(relaxed->0)
    } else {
        r.status == AccuracyGateStatus::FailedClosed && r.reasons@ == reasons
    }
}

/// The accuracy gate.
pub struct AccuracyGate;

impl AccuracyGate {
    pub fn evaluate(config: &AccuracyGateConfig, input: AccuracyGateInput) -> (r:
        AccuracyGateDecision)
        ensures
            is_gate_decision(r, *config, input),
    {
        let precision = if input.attempted_edits == 0 {
            Rate { part: 1, whole: 1 }
        } else {
            Self::capped(input.accepted_edits, input.attempted_edits)
        };
        let recall = if input.attempted_violations == 0 || input.attempted_edits == 0 {
            Rate { part: 1, whole: 1 }
        } else {
            let denominator: usize = if input.attempted_violations <= input.attempted_edits {
                input.attempted_violations
            } else {
                input.attempted_edits
            };
            Self::capped(input.accepted_edits, denominator)
        };
        let mut reasons: Vec<AccuracyGateReason> = Vec::new();
        if config.semantic_required && !input.semantic_ready {
            reasons.push(AccuracyGateReason::SemanticRequiredUnmet);
        }
        let sample_size: usize = input.attempted_edits.saturating_add(input.attempted_violations);
        if config.enabled && sample_size >= config.min_samples {
            if precision.is_below(config.min_precision) {
                reasons.push(
                    AccuracyGateReason::PrecisionBelowThreshold {
                        actual: precision,
                        minimum: config.min_precision,
                    },
                );
            }
            if recall.is_below(config.min_recall) {
                reasons.push(
                    AccuracyGateReason::RecallBelowThreshold {
                        actual: recall,
                        minimum: config.min_recall,
                    },
                );
            }
        }
        assert(reasons@ =~= objections(*config, input));
        let status = if reasons.len() == 0 {
            AccuracyGateStatus::Passed
        } else if config.fail_closed {
            match Self::fail_closed_relaxation_reason(
                input.semantic_context_kind,
                reasons.as_slice(),
            ) {
                Some(reason) => {
                    reasons.push(reason);
                    AccuracyGateStatus::WarningOnly
                },
                None => AccuracyGateStatus::FailedClosed,
            }
        } else {
            AccuracyGateStatus::WarningOnly
        };
        AccuracyGateDecision { status, precision, recall, reasons }
    }

    fn capped(part: usize, whole: usize) -> (r: Rate)
        ensures
            r == Rate::of(part, whole),
    {
        Rate {
            part: if part <= whole {
                part
            } else {
                whole
            },
            whole,
        }
    }

    pub fn fail_closed_relaxation_reason(
        context_kind: SemanticCompdbContextKind,
        reasons: &[AccuracyGateReason],
    ) -> (r: Option<AccuracyGateReason>)
        ensures
            r == relaxation(context_kind, reasons@),
    {
        if reasons.len() == 0 {
            return None;
        }
        let mut semantic_required_unmet = false;
        let mut misses: usize = 0;
        let mut i: usize = 0;
        assert(reasons@.take(0) =~= Seq::empty());
        while i < reasons.len()
            invariant
                i <= reasons@.len(),
                misses <= i,
                misses == threshold_misses(reasons@.take(i as int)),
                semantic_required_unmet == reasons@.take(i as int).contains(
                    AccuracyGateReason::SemanticRequiredUnmet,
                ),
            decreases reasons@.len() - i,
        {
            let ghost head = reasons@.take(i as int);
            let ghost next = reasons@.take(i + 1);
            proof {
                assert(next =~= head.push(reasons@[i as int]));
                assert(next.drop_last() =~= head);
                let unmet = AccuracyGateReason::SemanticRequiredUnmet;
                if head.contains(unmet) {
                    let k = choose|k: int| 0 <= k < head.len() && head[k] == unmet;
                    assert(next[k] == unmet);
                }
                if next.contains(unmet) {
                    let k = choose|k: int| 0 <= k < next.len() && next[k] == unmet;
                    if k < i {
                        assert(head[k] == unmet);
                    }
                }
                if reasons@[i as int] == unmet {
                    assert(next[i as int] == unmet);
                }
            }
            match reasons[i] {
                AccuracyGateReason::SemanticRequiredUnmet => {
                    semantic_required_unmet = true;
                },
                AccuracyGateReason::PrecisionBelowThreshold { .. } => {
                    misses += 1;
                },
                AccuracyGateReason::RecallBelowThreshold { .. } => {
                    misses += 1;
                },
                _ => {},
            }
            i += 1;
        }
        assert(reasons@.take(reasons@.len() as int) =~= reasons@);
        match context_kind {
            SemanticCompdbContextKind::Exact => None,
            SemanticCompdbContextKind::PairedSourceHeuristic => {
                if !semantic_required_unmet && misses >= 2 {
                    None
                } else {
                    Some(AccuracyGateReason::FailClosedRelaxedForPairedSourceHeuristic)
                }
            },
            SemanticCompdbContextKind::HeaderConsensus
            | SemanticCompdbContextKind::SourceConsensus => Some(
                AccuracyGateReason::FailClosedRelaxedForConsensusContext,
            ),
            SemanticCompdbContextKind::Absent => Some(
                AccuracyGateReason::FailClosedRelaxedForTreeOnlyContext,
            ),
        }
    }
}

/// With an exact context a gate that fails closed never lets an objection
/// through as a warning; without one it never stops on the semantic demand
/// alone.
pub proof fn lemma_exact_context_fails_closed(
    config: AccuracyGateConfig,
    input: AccuracyGateInput,
)
    ensures
        input.semantic_context_kind == SemanticCompdbContextKind::Exact ==> relaxation(
            input.semantic_context_kind,
            objections(config, input),
        ) is None,
        objections(config, input).len() > 0 && config.semantic_required && !input.semantic_ready
            && input.semantic_context_kind != SemanticCompdbContextKind::Exact ==> relaxation(
            input.semantic_context_kind,
            objections(config, input),
        ) is Some,
{
    let reasons = objections(config, input);
    if config.semantic_required && !input.semantic_ready {
        assert(reasons[0] == AccuracyGateReason::SemanticRequiredUnmet);
    }
}

/// Where every attempted edit is accepted, no threshold is missed.
pub proof fn lemma_full_acceptance_passes_thresholds(
    config: AccuracyGateConfig,
    input: AccuracyGateInput,
)
    requires
        input.accepted_edits >= input.attempted_edits,
        config.min_precision <= WHOLE,
        config.min_recall <= WHOLE,
    ensures
        threshold_misses(objections(config, input)) == 0,
{
    let p = precision_of(input);
    let r = recall_of(input);
    assert(p.part == p.whole && r.part == r.whole);
    assert(!p.below(config.min_precision)) by (nonlinear_arith)
        requires
            p.part == p.whole,
            config.min_precision <= WHOLE,
    ;
    assert(!r.below(config.min_recall)) by (nonlinear_arith)
        requires
            r.part == r.whole,
            config.min_recall <= WHOLE,
    ;
    let reasons = objections(config, input);
    reveal_with_fuel(threshold_misses, 3);
    if reasons.len() > 0 {
        assert(reasons =~= seq![AccuracyGateReason::SemanticRequiredUnmet]);
        assert(reasons.drop_last() =~= Seq::empty());
    }
}

/// When the accuracy gate passes a file, warns and stops. It objects where the
/// semantics are demanded and not ready; and, with enough samples, where fewer
/// of the attempted edits are accepted than the least precision asks for, or
/// fewer of the violations are dealt with than the least recall asks for. Of a
/// gate that fails closed an objection stops a file with exact options, and two
/// missed thresholds one with those of its paired source.
pub proof fn lemma_when_the_accuracy_gate_stops(
    r: AccuracyGateDecision,
    config: AccuracyGateConfig,
    input: AccuracyGateInput,
)
    requires
        is_gate_decision(r, config, input),
        config.min_precision <= 1_000_000_000,
        config.min_recall <= 1_000_000_000,
    ensures
        ({
            let edits = input.attempted_edits;
            let asked = if input.attempted_violations <= edits {
                input.attempted_violations
            } else {
                edits
            };
            let done = input.accepted_edits;
            let measured = config.enabled && edits + input.attempted_violations
                >= config.min_samples;
            let unmet = config.semantic_required && !input.semantic_ready;
            let imprecise = measured && done < edits && done * 1_000_000_000 < config.min_precision
                * edits;
            let incomplete = measured && done < asked && done * 1_000_000_000 < config.min_recall
                * asked;
            let strict = input.semantic_context_kind == SemanticCompdbContextKind::Exact || (
            input.semantic_context_kind == SemanticCompdbContextKind::PairedSourceHeuristic
                && !unmet && imprecise && incomplete);
            &&& r.status == AccuracyGateStatus::Passed <==> !unmet && !imprecise && !incomplete
            &&& r.status == AccuracyGateStatus::FailedClosed <==> (unmet || imprecise
                || incomplete) && config.fail_closed && strict
            &&& r.reasons@.contains(AccuracyGateReason::SemanticRequiredUnmet) <==> unmet
            &&& r.status == AccuracyGateStatus::Passed <==> r.reasons@.len() == 0
        }),
{
    let p = precision_of(input);
    let q = recall_of(input);
    let edits = input.attempted_edits;
    let asked = if input.attempted_violations <= edits {
        input.attempted_violations
    } else {
        edits
    };
    let done = input.accepted_edits;
    lemma_rate(done, edits, config.min_precision);
    lemma_rate(done, asked, config.min_recall);
    assert(Rate::full().below(config.min_precision) == false);
    assert(Rate::full().below(config.min_recall) == false);
    let reasons = objections(config, input);
    reveal_with_fuel(threshold_misses, 4);
    let unmet = config.semantic_required && !input.semantic_ready;
    if unmet {
        assert(reasons[0] == AccuracyGateReason::SemanticRequiredUnmet);
        assert(r.reasons@[0] == reasons[0]);
    }
    let checked = checks_thresholds(config, input);
    let imprecise = checked && p.below(config.min_precision);
    let incomplete = checked && q.below(config.min_recall);
    let a = AccuracyGateReason::PrecisionBelowThreshold {
        actual: p,
        minimum: config.min_precision,
    };
    let b = AccuracyGateReason::RecallBelowThreshold { actual: q, minimum: config.min_recall };
    if !unmet {
        if imprecise && incomplete {
            assert(reasons =~= seq![a, b]);
            assert(reasons.drop_last() =~= seq![a]);
            assert(reasons.drop_last().drop_last() =~= Seq::empty());
            assert(threshold_misses(reasons) == 2);
        } else if imprecise {
            assert(reasons =~= seq![a]);
            assert(reasons.drop_last() =~= Seq::empty());
            assert(threshold_misses(reasons) == 1);
        } else if incomplete {
            assert(reasons =~= seq![b]);
            assert(reasons.drop_last() =~= Seq::empty());
            assert(threshold_misses(reasons) == 1);
        }
    }
}

proof fn lemma_rate(done: usize, whole: usize, minimum: u32)
    requires
        minimum <= 1_000_000_000,
    ensures
        Rate::of(done, whole).below(minimum) <==> done < whole && done * 1_000_000_000 < minimum
            * whole,
{
    if done >= whole {
        assert(whole * WHOLE >= minimum * whole) by (nonlinear_arith)
            requires
                minimum <= 1_000_000_000,
                WHOLE == 1_000_000_000,
                whole >= 0,
        ;
    }
}

} // verus!
