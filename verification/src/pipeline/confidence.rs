//! What the decision of the confidence gate does to a policy's result.
use std::collections::BTreeSet;
use vstd::prelude::*;

use crate::edit_candidate::PolicyDecisionOutcome;
use crate::enforcement::Enforcement;
use crate::gate_decision;
use crate::gate_decision::{ConfidenceGateDecision, ConfidenceReasonCode};
use crate::model;
use crate::model::{PolicyResult, ResultView, Violation, ViolationView};
use crate::pipeline::suppression;
use crate::pipeline::suppression::suppress_lines_impl;
use crate::text;
use crate::text::decimal_of;

verus! {

/// How the telemetry of similar files bends the enforcement.
#[derive(Clone, Copy, Debug, PartialEq, Eq, Structural)]
pub enum ClusterEnforcementBias {
    Neutral,
    Relax,
    Harden,
}

/// One tier less strict; `Must` stays.
pub open spec fn relaxed(value: Enforcement) -> Enforcement {
    match value {
        Enforcement::Must => Enforcement::Must,
        Enforcement::Hard => Enforcement::Soft,
        Enforcement::Soft => Enforcement::Advisory,
        Enforcement::Advisory => Enforcement::Advisory,
    }
}

/// One tier stricter.
pub open spec fn hardened(value: Enforcement) -> Enforcement {
    match value {
        Enforcement::Must => Enforcement::Must,
        Enforcement::Hard => Enforcement::Must,
        Enforcement::Soft => Enforcement::Hard,
        Enforcement::Advisory => Enforcement::Soft,
    }
}

pub fn relax_enforcement(value: Enforcement) -> (r: Enforcement)
    ensures
        r == relaxed(value),
{
    match value {
        Enforcement::Must => Enforcement::Must,
        Enforcement::Hard => Enforcement::Soft,
        Enforcement::Soft => Enforcement::Advisory,
        Enforcement::Advisory => Enforcement::Advisory,
    }
}

pub fn harden_enforcement(value: Enforcement) -> (r: Enforcement)
    ensures
        r == hardened(value),
{
    match value {
        Enforcement::Must => Enforcement::Must,
        Enforcement::Hard => Enforcement::Must,
        Enforcement::Soft => Enforcement::Hard,
        Enforcement::Advisory => Enforcement::Soft,
    }
}

/// Relaxing never makes a tier stricter and never touches `Must`; hardening
/// never makes one less strict.
pub proof fn lemma_bias_direction(value: Enforcement)
    ensures
        relaxed(value).strictness() <= value.strictness() <= hardened(value).strictness(),
        value == Enforcement::Must <==> relaxed(value) == Enforcement::Must,
        value != Enforcement::Must && value != Enforcement::Advisory ==> hardened(relaxed(value))
            == value,
{
}

/// A list of reasons with one more, unless it is there already.
pub open spec fn with_reason(
    codes: Seq<ConfidenceReasonCode>,
    code: ConfidenceReasonCode,
) -> Seq<ConfidenceReasonCode> {
    if codes.contains(code) {
        codes
    } else {
        codes.push(code)
    }
}

pub fn push_reason_code(codes: &mut Vec<ConfidenceReasonCode>, code: ConfidenceReasonCode)
    ensures
        final(codes)@ == with_reason(old(codes)@, code),
{
    let mut i: usize = 0;
    while i < codes.len()
        invariant
            codes@ == old(codes)@,
            i <= codes@.len(),
            forall|k: int| 0 <= k < i ==> #[trigger] codes@[k] != code,
        decreases codes@.len() - i,
    {
        if codes[i] == code {
            assert(codes@.contains(codes@[i as int]));
            return ;
        }
        i += 1;
    }
    codes.push(code);
}

/// Bends a decision: relaxing lets a block through, unless the policy is a
/// must, and lowers the tier; hardening raises it.
pub fn apply_cluster_bias(
    decision: ConfidenceGateDecision,
    bias: ClusterEnforcementBias,
) -> (r: ConfidenceGateDecision)
    ensures
        r.outcome == if bias == ClusterEnforcementBias::Relax && decision.base_enforcement
            != Enforcement::Must && decision.outcome == PolicyDecisionOutcome::Block {
            PolicyDecisionOutcome::Apply
        } else {
            decision.outcome
        },
        r.effective_enforcement == match bias {
            ClusterEnforcementBias::Neutral => decision.effective_enforcement,
            ClusterEnforcementBias::Relax => relaxed(decision.effective_enforcement),
            ClusterEnforcementBias::Harden => hardened(decision.effective_enforcement),
        },
        r.reason_codes@ == match bias {
            ClusterEnforcementBias::Neutral => decision.reason_codes@,
            ClusterEnforcementBias::Relax => with_reason(
                decision.reason_codes@,
                ConfidenceReasonCode::ClusterAdaptiveRelaxed,
            ),
            ClusterEnforcementBias::Harden => with_reason(
                decision.reason_codes@,
                ConfidenceReasonCode::ClusterAdaptiveHardened,
            ),
        },
        r.base_enforcement == decision.base_enforcement,
        r.score == decision.score,
        r.score_amount == decision.score_amount,
        r.threshold == decision.threshold,
        r.dropped_lines == decision.dropped_lines,
{
    let mut decision = decision;
    match bias {
        ClusterEnforcementBias::Neutral => {},
        ClusterEnforcementBias::Relax => {
            if decision.base_enforcement != Enforcement::Must && decision.outcome
                == PolicyDecisionOutcome::Block {
                decision.outcome = PolicyDecisionOutcome::Apply;
            }
            decision.effective_enforcement = relax_enforcement(decision.effective_enforcement);
            push_reason_code(
                &mut decision.reason_codes,
                ConfidenceReasonCode::ClusterAdaptiveRelaxed,
            );
        },
        ClusterEnforcementBias::Harden => {
            decision.effective_enforcement = harden_enforcement(decision.effective_enforcement);
            push_reason_code(
                &mut decision.reason_codes,
                ConfidenceReasonCode::ClusterAdaptiveHardened,
            );
        },
    }
    decision
}

/// The text of the reasons of a decision.
pub open spec fn reason_text(codes: Seq<ConfidenceReasonCode>) -> Seq<char> {
    if codes.len() == 0 {
        "stable"@
    } else {
        text::joined(gate_decision::rendered_all(codes), ","@)
    }
}

/// The violation under which a decision is reported.
pub open spec fn guard_violation(message: Seq<char>, line: usize) -> ViolationView {
    ViolationView { policy: "confidence_guard"@, message, line, column: Some(1usize) }
}

pub open spec fn tier_message(
    policy: Seq<char>,
    base: Enforcement,
    effective: Enforcement,
    reasons: Seq<char>,
) -> Seq<char> {
    "Adaptive tier for '"@ + policy + "': "@ + base.shown() + "->"@ + effective.shown() + " ("@
        + reasons + ")"@
}

pub open spec fn partial_message(
    policy: Seq<char>,
    dropped: nat,
    score: Seq<char>,
    threshold: Seq<char>,
    reasons: Seq<char>,
) -> Seq<char> {
    "Adaptive partial apply for '"@ + policy + "' (dropped_lines="@ + text::decimal(dropped)
        + ", score="@ + score + ", threshold="@ + threshold + ", reasons="@ + reasons + ")"@
}

pub open spec fn block_message(
    policy: Seq<char>,
    score: Seq<char>,
    threshold: Seq<char>,
    effective: Enforcement,
    reasons: Seq<char>,
) -> Seq<char> {
    "Adaptive decision blocked for '"@ + policy + "' (score="@ + score + ", threshold="@
        + threshold + ", effective="@ + effective.shown() + ", reasons="@ + reasons + ")"@
}

/// A result under a decision: applied as it is, applied without the dropped
/// lines, or blocked; what was adapted is reported at the first edit's line.
pub open spec fn decided(
    policy: Seq<char>,
    before: Seq<char>,
    r: ResultView,
    decision: ConfidenceGateDecision,
) -> ResultView {
    let line = if r.edits.len() > 0 {
        r.edits[0].line
    } else {
        1usize
    };
    let reasons = reason_text(decision.reason_codes@);
    match decision.outcome {
        PolicyDecisionOutcome::Apply => {
            if decision.base_enforcement != decision.effective_enforcement {
                ResultView {
                    violations: r.violations.push(
                        guard_violation(
                            tier_message(
                                policy,
                                decision.base_enforcement,
                                decision.effective_enforcement,
                                reasons,
                            ),
                            line,
                        ),
                    ),
                    ..r
                }
            } else {
                r
            }
        },
        PolicyDecisionOutcome::ApplyPartial => {
            let kept = suppression::suppressed(before, r, decision.dropped_lines@);
            ResultView {
                violations: kept.violations.push(
                    guard_violation(
                        partial_message(
                            policy,
                            decision.dropped_lines@.len(),
                            decision.score@,
                            decision.threshold@,
                            reasons,
                        ),
                        line,
                    ),
                ),
                ..kept
            }
        },
        PolicyDecisionOutcome::Block => ResultView {
            text: before,
            violations: r.violations.push(
                guard_violation(
                    block_message(
                        policy,
                        decision.score@,
                        decision.threshold@,
                        decision.effective_enforcement,
                        reasons,
                    ),
                    line,
                ),
            ),
            edits: Seq::empty(),
            warnings: r.warnings,
            changed: false,
        },
    }
}

fn report(result: &mut PolicyResult, message: String, line: usize)
    ensures
        final(result)@ == (ResultView {
            violations: old(result)@.violations.push(guard_violation(message@, line)),
            ..old(result)@
        }),
{
    let ghost start = result@;
    let violation = Violation {
        policy: "confidence_guard".to_owned(),
        message,
        line,
        column: Some(1),
    };
    let ghost view = violation@;
    let ghost was = result.violations@;
    result.violations.push(violation);
    proof {
        assert(model::violation_views(result.violations@) =~= model::violation_views(was).push(
            view,
        ));
        assert(result@ =~= ResultView { violations: start.violations.push(view), ..start });
    }
}

/// Carries out a decision on a result.
pub fn apply_confidence_decision(
    policy_name: &str,
    before_text: &str,
    result: PolicyResult,
    decision: &ConfidenceGateDecision,
) -> (r: PolicyResult)
    ensures
        r@ == decided(policy_name@, before_text@, result@, *decision),
{
    let ghost start = result@;
    assert(start.edits.len() == result.edits@.len());
    let line: usize = if result.edits.len() > 0 {
        assert(start.edits[0] == result.edits@[0]@);
        result.edits[0].line
    } else {
        1
    };
    let reasons = decision.rendered_reason_summary();
    assert(reasons@ == reason_text(decision.reason_codes@));
    let mut result = result;
    match decision.outcome {
        PolicyDecisionOutcome::Apply => {
            if decision.base_enforcement != decision.effective_enforcement {
                let mut message = "Adaptive tier for '".to_owned();
                message.append(policy_name);
                message.append("': ");
                message.append(decision.base_enforcement.display_name());
                message.append("->");
                message.append(decision.effective_enforcement.display_name());
                message.append(" (");
                message.append(reasons.as_str());
                message.append(")");
                report(&mut result, message, line);
            }
            result
        },
        PolicyDecisionOutcome::ApplyPartial => {
            let dropped: usize = decision.dropped_lines.len();
            let mut kept = suppress_lines_impl(before_text, result, &decision.dropped_lines);
            let mut message = "Adaptive partial apply for '".to_owned();
            message.append(policy_name);
            message.append("' (dropped_lines=");
            message.append(decimal_of(dropped).as_str());
            message.append(", score=");
            message.append(decision.score.as_str());
            message.append(", threshold=");
            message.append(decision.threshold.as_str());
            message.append(", reasons=");
            message.append(reasons.as_str());
            message.append(")");
            report(&mut kept, message, line);
            kept
        },
        PolicyDecisionOutcome::Block => {
            let mut message = "Adaptive decision blocked for '".to_owned();
            message.append(policy_name);
            message.append("' (score=");
            message.append(decision.score.as_str());
            message.append(", threshold=");
            message.append(decision.threshold.as_str());
            message.append(", effective=");
            message.append(decision.effective_enforcement.display_name());
            message.append(", reasons=");
            message.append(reasons.as_str());
            message.append(")");
            result.text = before_text.to_owned();
            result.edits = Vec::new();
            result.changed = false;
            report(&mut result, message, line);
            assert(result@ =~= decided(policy_name@, before_text@, start, *decision));
            result
        },
    }
}

/// A blocked result leaves the text as it was and keeps no edit.
pub proof fn lemma_blocked_is_untouched(
    policy: Seq<char>,
    before: Seq<char>,
    r: ResultView,
    decision: ConfidenceGateDecision,
)
    requires
        decision.outcome == PolicyDecisionOutcome::Block,
    ensures
        decided(policy, before, r, decision).text == before,
        decided(policy, before, r, decision).edits.len() == 0,
        !decided(policy, before, r, decision).changed,
{
}

/// A result that is applied keeps its text and its edits, and is remarked upon
/// exactly where its enforcement was moved. One that is applied in part has no
/// edit of a dropped line left.
pub proof fn lemma_applied_results_stay(
    policy: Seq<char>,
    before: Seq<char>,
    r: ResultView,
    decision: ConfidenceGateDecision,
)
    ensures
        decision.outcome == PolicyDecisionOutcome::Apply ==> {
            let d = decided(policy, before, r, decision);
            &&& d.text == r.text && d.edits == r.edits && d.warnings == r.warnings
            &&& d.changed == r.changed
            &&& decision.base_enforcement == decision.effective_enforcement ==> d.violations
                == r.violations
            &&& decision.base_enforcement != decision.effective_enforcement ==> d.violations.len()
                == r.violations.len() + 1 && d.violations.drop_last() == r.violations
        },
        decision.outcome == PolicyDecisionOutcome::ApplyPartial && decision.dropped_lines@.len()
            > 0 ==> {
            let d = decided(policy, before, r, decision);
            forall|k: int|
                0 <= k < d.edits.len() ==> !decision.dropped_lines@.contains(
                    (#[trigger] d.edits[k]).line,
                )
        },
        decision.outcome == PolicyDecisionOutcome::Block ==> decided(
            policy,
            before,
            r,
            decision,
        ).violations.len() == r.violations.len() + 1,
{
    let d = decided(policy, before, r, decision);
    if decision.outcome == PolicyDecisionOutcome::Apply && decision.base_enforcement
        != decision.effective_enforcement {
        assert(d.violations.drop_last() =~= r.violations);
    }
    if decision.outcome == PolicyDecisionOutcome::ApplyPartial && decision.dropped_lines@.len()
        > 0 {
        suppression::lemma_suppressed_edits(before, r, decision.dropped_lines@);
    }
}

/// Relaxing goes one tier down and hardening one up, as far as there is one;
/// `Must` is not relaxed.
pub proof fn lemma_bias_moves_one_tier(value: Enforcement)
    ensures
        value == Enforcement::Hard ==> relaxed(value) == Enforcement::Soft,
        value == Enforcement::Soft ==> relaxed(value) == Enforcement::Advisory,
        value == Enforcement::Advisory ==> relaxed(value) == Enforcement::Advisory,
        value == Enforcement::Advisory ==> hardened(value) == Enforcement::Soft,
        value == Enforcement::Soft ==> hardened(value) == Enforcement::Hard,
        value == Enforcement::Hard ==> hardened(value) == Enforcement::Must,
        value == Enforcement::Must ==> hardened(value) == Enforcement::Must,
{
}

} // verus!
