use policy_engine::accuracy_gate::{
    AccuracyGate, AccuracyGateConfig, AccuracyGateDecision, AccuracyGateFailure, AccuracyGateInput,
    AccuracyGateReason, AccuracyGateStatus, Rate,
};
use policy_engine::compdb::SemanticCompdbContextKind;

fn ratio(rate: Rate) -> f64 {
    rate.part as f64 / rate.whole as f64
}

#[test]
fn passes_when_thresholds_are_met() {
    let config = AccuracyGateConfig {
        enabled: true,
        min_precision: 500_000_000,
        min_recall: 200_000_000,
        min_samples: 1,
        ..AccuracyGateConfig::default()
    };
    let decision = AccuracyGate::evaluate(
        &config,
        AccuracyGateInput {
            semantic_ready: true,
            attempted_edits: 4,
            attempted_violations: 6,
            accepted_edits: 4,
            semantic_context_kind: SemanticCompdbContextKind::Exact,
        },
    );
    assert_eq!(decision.status, AccuracyGateStatus::Passed);
    assert!(decision.passed());
    assert!(decision.reasons.is_empty());
}

#[test]
fn warns_when_semantic_required_is_not_met_fail_open() {
    let config = AccuracyGateConfig {
        semantic_required: true,
        fail_closed: false,
        ..AccuracyGateConfig::default()
    };
    let decision = AccuracyGate::evaluate(
        &config,
        AccuracyGateInput {
            semantic_ready: false,
            attempted_edits: 0,
            attempted_violations: 0,
            accepted_edits: 0,
            semantic_context_kind: SemanticCompdbContextKind::Exact,
        },
    );
    assert_eq!(decision.status, AccuracyGateStatus::WarningOnly);
    assert!(decision
        .reasons
        .contains(&AccuracyGateReason::SemanticRequiredUnmet));
}

#[test]
fn fail_closed_blocks_on_threshold_miss() {
    let config = AccuracyGateConfig {
        enabled: true,
        fail_closed: true,
        min_precision: 900_000_000,
        min_recall: 900_000_000,
        min_samples: 1,
        ..AccuracyGateConfig::default()
    };
    let decision = AccuracyGate::evaluate(
        &config,
        AccuracyGateInput {
            semantic_ready: true,
            attempted_edits: 10,
            attempted_violations: 10,
            accepted_edits: 2,
            semantic_context_kind: SemanticCompdbContextKind::Exact,
        },
    );
    assert_eq!(decision.status, AccuracyGateStatus::FailedClosed);
    assert!(!decision.passed());
    assert_eq!(ratio(decision.precision), 0.2);
    assert_eq!(ratio(decision.recall), 0.2);
}

#[test]
fn grouped_edits_do_not_artificially_deflate_recall() {
    let config = AccuracyGateConfig {
        enabled: true,
        fail_closed: true,
        min_precision: 900_000_000,
        min_recall: 900_000_000,
        min_samples: 1,
        ..AccuracyGateConfig::default()
    };
    let decision = AccuracyGate::evaluate(
        &config,
        AccuracyGateInput {
            semantic_ready: true,
            attempted_edits: 1,
            attempted_violations: 3,
            accepted_edits: 1,
            semantic_context_kind: SemanticCompdbContextKind::Exact,
        },
    );
    assert_eq!(decision.status, AccuracyGateStatus::Passed);
    assert_eq!(ratio(decision.precision), 1.0);
    assert_eq!(ratio(decision.recall), 1.0);
}

#[test]
fn zero_edit_samples_do_not_fail_recall_threshold() {
    let config = AccuracyGateConfig {
        enabled: true,
        fail_closed: true,
        min_precision: 900_000_000,
        min_recall: 900_000_000,
        min_samples: 1,
        ..AccuracyGateConfig::default()
    };
    let decision = AccuracyGate::evaluate(
        &config,
        AccuracyGateInput {
            semantic_ready: true,
            attempted_edits: 0,
            attempted_violations: 3,
            accepted_edits: 0,
            semantic_context_kind: SemanticCompdbContextKind::Exact,
        },
    );
    assert_eq!(decision.status, AccuracyGateStatus::Passed);
    assert_eq!(ratio(decision.precision), 1.0);
    assert_eq!(ratio(decision.recall), 1.0);
}

#[test]
fn renders_reason_enums_at_boundary() {
    let rendered = vec![
        AccuracyGateReason::SemanticRequiredUnmet.render("", ""),
        AccuracyGateReason::PrecisionBelowThreshold {
            actual: Rate { part: 923, whole: 1000 },
            minimum: 940_000_000,
        }
        .render("0.923", "0.940"),
    ];
    assert_eq!(
        AccuracyGateDecision::summary("0.923", "0.811", &rendered),
        "accuracy_gate: precision=0.923 recall=0.811 reasons=[semantic_required_unmet,precision_below_threshold(0.923 < 0.940)]"
    );
}

#[test]
fn fail_closed_relaxes_for_consensus_contexts() {
    let config = AccuracyGateConfig {
        enabled: true,
        fail_closed: true,
        min_precision: 950_000_000,
        min_recall: 950_000_000,
        min_samples: 1,
        ..AccuracyGateConfig::default()
    };
    let decision = AccuracyGate::evaluate(
        &config,
        AccuracyGateInput {
            semantic_ready: true,
            attempted_edits: 10,
            attempted_violations: 10,
            accepted_edits: 2,
            semantic_context_kind: SemanticCompdbContextKind::HeaderConsensus,
        },
    );
    assert_eq!(decision.status, AccuracyGateStatus::WarningOnly);
    assert!(decision
        .reasons
        .contains(&AccuracyGateReason::FailClosedRelaxedForConsensusContext));
}

#[test]
fn paired_source_heuristic_still_fail_closes_on_strong_threshold_miss() {
    let config = AccuracyGateConfig {
        enabled: true,
        fail_closed: true,
        min_precision: 950_000_000,
        min_recall: 950_000_000,
        min_samples: 1,
        ..AccuracyGateConfig::default()
    };
    let decision = AccuracyGate::evaluate(
        &config,
        AccuracyGateInput {
            semantic_ready: true,
            attempted_edits: 10,
            attempted_violations: 10,
            accepted_edits: 2,
            semantic_context_kind: SemanticCompdbContextKind::PairedSourceHeuristic,
        },
    );
    assert_eq!(decision.status, AccuracyGateStatus::FailedClosed);
    assert!(!decision
        .reasons
        .contains(&AccuracyGateReason::FailClosedRelaxedForPairedSourceHeuristic));
}

#[test]
fn paired_source_heuristic_relaxes_semantic_required_unmet() {
    let config = AccuracyGateConfig {
        semantic_required: true,
        fail_closed: true,
        ..AccuracyGateConfig::default()
    };
    let decision = AccuracyGate::evaluate(
        &config,
        AccuracyGateInput {
            semantic_ready: false,
            attempted_edits: 0,
            attempted_violations: 0,
            accepted_edits: 0,
            semantic_context_kind: SemanticCompdbContextKind::PairedSourceHeuristic,
        },
    );
    assert_eq!(decision.status, AccuracyGateStatus::WarningOnly);
    assert!(decision
        .reasons
        .contains(&AccuracyGateReason::FailClosedRelaxedForPairedSourceHeuristic));
}

#[test]
fn no_compile_options_relax_to_a_warning() {
    let config = AccuracyGateConfig {
        semantic_required: true,
        fail_closed: true,
        ..AccuracyGateConfig::default()
    };
    let input = AccuracyGateInput {
        semantic_ready: false,
        attempted_edits: 0,
        attempted_violations: 0,
        accepted_edits: 0,
        semantic_context_kind: SemanticCompdbContextKind::Absent,
    };
    let decision = AccuracyGate::evaluate(&config, input);
    assert_eq!(decision.status, AccuracyGateStatus::WarningOnly);
    assert_eq!(
        decision.reasons,
        vec![
            AccuracyGateReason::SemanticRequiredUnmet,
            AccuracyGateReason::FailClosedRelaxedForTreeOnlyContext,
        ]
    );
    assert_eq!(AccuracyGateDecision::rendered_reason_summary(&[]), "unknown");
}

#[test]
fn gate_failures_name_the_file() {
    let config = AccuracyGateConfig { semantic_required: true, ..AccuracyGateConfig::default() };
    let input = AccuracyGateInput {
        semantic_ready: false,
        attempted_edits: 0,
        attempted_violations: 0,
        accepted_edits: 0,
        semantic_context_kind: SemanticCompdbContextKind::Exact,
    };
    let unmet = AccuracyGateFailure::semantic_required_unmet(
        "a.cpp",
        "no parser",
        AccuracyGate::evaluate(&config, input),
    );
    assert_eq!(
        unmet.message(""),
        "accuracy gate fail-closed: semantic_required unmet for a.cpp (no parser)"
    );
    let miss = AccuracyGateFailure::threshold_miss("a.cpp", AccuracyGate::evaluate(&config, input));
    assert_eq!(miss.message("why"), "accuracy gate fail-closed for a.cpp: why");
    assert_eq!(miss.decision().status, AccuracyGateStatus::WarningOnly);
}
