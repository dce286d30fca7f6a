use std::collections::BTreeSet;

use policy_engine::certainty_filter::CertaintyFilterState;
use policy_engine::conflict_solver::{GlobalConflictSolver, SolverTuning};
use policy_engine::edit_candidate::{CandidateRiskTier, PolicyEditCandidate};
use policy_engine::run_options::RetryScopeStage;
use policy_engine::semantic_contract::SemanticInvariantClause;
use policy_engine::zone::PolicyZone;

fn tuning() -> SolverTuning {
    CertaintyFilterState::new().solver_tuning()
}

#[test]
fn hard_constraint_rejected() {
    let candidate = PolicyEditCandidate {
        policy: "naming_conventions".to_string(),
        line: 7,
        confidence: 900_000_000,
        risk_tier: CandidateRiskTier::High,
        impact_radius: 2,
        symbol_footprint: vec![11u64],
        range_footprint: vec![(7usize, 7usize)],
        hard_constraints_touched: SemanticInvariantClause::EditSafety.bit(),
        zone: PolicyZone::Code,
        after_fingerprint: 1,
        style_gain: 1_000_000_000,
    };
    let result = GlobalConflictSolver::solve(&[candidate], &[], RetryScopeStage::Full, &tuning());
    assert!(result.accepted.is_empty());
    assert!(result.hard_blocked_lines.contains(&7));
}

#[test]
fn prefers_risk_uncertain() {
    let low = PolicyEditCandidate {
        policy: "compact_declarations".to_string(),
        line: 12,
        confidence: 820_000_000,
        risk_tier: CandidateRiskTier::Low,
        impact_radius: 1,
        symbol_footprint: vec![55u64],
        range_footprint: vec![(12usize, 12usize)],
        hard_constraints_touched: 0,
        zone: PolicyZone::Code,
        after_fingerprint: 2,
        style_gain: 1_100_000_000,
    };
    let high = PolicyEditCandidate {
        policy: "naming_conventions".to_string(),
        line: 12,
        confidence: 850_000_000,
        risk_tier: CandidateRiskTier::High,
        impact_radius: 2,
        symbol_footprint: vec![55u64],
        range_footprint: vec![(11usize, 13usize)],
        hard_constraints_touched: 0,
        zone: PolicyZone::Code,
        after_fingerprint: 3,
        style_gain: 1_000_000_000,
    };
    let result =
        GlobalConflictSolver::solve(&[low, high], &[], RetryScopeStage::LineLocal, &tuning());
    assert_eq!(result.accepted.len(), 1);
    assert_eq!(result.accepted[0].policy, "compact_declarations");
}

#[test]
fn solver_global_utility() {
    let high_single = PolicyEditCandidate {
        policy: "naming_conventions".to_string(),
        line: 20,
        confidence: 900_000_000,
        risk_tier: CandidateRiskTier::Low,
        impact_radius: 3,
        symbol_footprint: vec![1u64],
        range_footprint: vec![(20usize, 23usize)],
        hard_constraints_touched: 0,
        zone: PolicyZone::Code,
        after_fingerprint: 11,
        style_gain: 2_000_000_000,
    };
    let left_pair = PolicyEditCandidate {
        policy: "compact_declarations".to_string(),
        line: 21,
        confidence: 900_000_000,
        risk_tier: CandidateRiskTier::Low,
        impact_radius: 1,
        symbol_footprint: vec![2u64],
        range_footprint: vec![(21usize, 21usize)],
        hard_constraints_touched: 0,
        zone: PolicyZone::Code,
        after_fingerprint: 12,
        style_gain: 1_500_000_000,
    };
    let right_pair = PolicyEditCandidate {
        policy: "class_layout".to_string(),
        line: 23,
        confidence: 900_000_000,
        risk_tier: CandidateRiskTier::Low,
        impact_radius: 1,
        symbol_footprint: vec![3u64],
        range_footprint: vec![(23usize, 23usize)],
        hard_constraints_touched: 0,
        zone: PolicyZone::Code,
        after_fingerprint: 13,
        style_gain: 1_500_000_000,
    };
    let result = GlobalConflictSolver::solve(
        &[high_single, left_pair, right_pair],
        &[],
        RetryScopeStage::Full,
        &tuning(),
    );
    let accepted_policies = result
        .accepted
        .iter()
        .map(|candidate| candidate.policy.as_str())
        .collect::<BTreeSet<_>>();
    assert!(accepted_policies.contains("compact_declarations"));
    assert!(accepted_policies.contains("class_layout"));
    assert_eq!(result.accepted.len(), 2);
}

#[test]
fn far_apart_coexist() {
    let left = PolicyEditCandidate {
        policy: "clang_format".to_string(),
        line: 20,
        confidence: 920_000_000,
        risk_tier: CandidateRiskTier::Medium,
        impact_radius: 2,
        symbol_footprint: vec![777u64],
        range_footprint: vec![(20usize, 20usize)],
        hard_constraints_touched: 0,
        zone: PolicyZone::Code,
        after_fingerprint: 101,
        style_gain: 1_000_000_000,
    };
    let right = PolicyEditCandidate {
        policy: "class_layout".to_string(),
        line: 120,
        confidence: 910_000_000,
        risk_tier: CandidateRiskTier::Medium,
        impact_radius: 2,
        symbol_footprint: vec![777u64],
        range_footprint: vec![(120usize, 120usize)],
        hard_constraints_touched: 0,
        zone: PolicyZone::Code,
        after_fingerprint: 202,
        style_gain: 1_000_000_000,
    };
    let result = GlobalConflictSolver::solve(&[left, right], &[], RetryScopeStage::Full, &tuning());
    assert_eq!(result.accepted.len(), 2);
}

#[test]
fn rewrite_no_selfconflict() {
    let left = PolicyEditCandidate {
        policy: "naming_conventions".to_string(),
        line: 41,
        confidence: 960_000_000,
        risk_tier: CandidateRiskTier::High,
        impact_radius: 8,
        symbol_footprint: vec![99u64, 100u64],
        range_footprint: vec![(41usize, 120usize)],
        hard_constraints_touched: 0,
        zone: PolicyZone::Code,
        after_fingerprint: 303,
        style_gain: 1_000_000_000,
    };
    let right = PolicyEditCandidate {
        policy: "naming_conventions".to_string(),
        line: 47,
        confidence: 960_000_000,
        risk_tier: CandidateRiskTier::High,
        impact_radius: 8,
        symbol_footprint: vec![99u64, 101u64],
        range_footprint: vec![(41usize, 120usize)],
        hard_constraints_touched: 0,
        zone: PolicyZone::Code,
        after_fingerprint: 303,
        style_gain: 1_000_000_000,
    };
    let result = GlobalConflictSolver::solve(&[left, right], &[], RetryScopeStage::Full, &tuning());
    assert_eq!(result.accepted.len(), 2);
    assert!(result.dropped_lines.is_empty());
}

#[test]
fn same_line_conflicts() {
    let left = PolicyEditCandidate {
        policy: "naming_conventions".to_string(),
        line: 9,
        confidence: 920_000_000,
        risk_tier: CandidateRiskTier::High,
        impact_radius: 2,
        symbol_footprint: vec![44u64],
        range_footprint: vec![(9usize, 12usize)],
        hard_constraints_touched: 0,
        zone: PolicyZone::Code,
        after_fingerprint: 1,
        style_gain: 1_000_000_000,
    };
    let right = PolicyEditCandidate {
        policy: "naming_conventions".to_string(),
        line: 9,
        confidence: 910_000_000,
        risk_tier: CandidateRiskTier::High,
        impact_radius: 2,
        symbol_footprint: vec![44u64],
        range_footprint: vec![(9usize, 12usize)],
        hard_constraints_touched: 0,
        zone: PolicyZone::Code,
        after_fingerprint: 2,
        style_gain: 1_000_000_000,
    };
    let result = GlobalConflictSolver::solve(&[left, right], &[], RetryScopeStage::Full, &tuning());
    assert_eq!(result.accepted.len(), 1);
}

fn plain(policy: &str, line: usize, style_gain: i64) -> PolicyEditCandidate {
    PolicyEditCandidate {
        policy: policy.to_string(),
        line,
        confidence: 900_000_000,
        risk_tier: CandidateRiskTier::Low,
        impact_radius: 1,
        symbol_footprint: vec![],
        range_footprint: vec![(line, line)],
        hard_constraints_touched: 0,
        zone: PolicyZone::Code,
        after_fingerprint: line as u64,
        style_gain,
    }
}

#[test]
fn utility_adds_up() {
    let mut candidate = plain("class_layout", 4, 600_000_000);
    // Gain and confidence, the bonus for a steadying edit, and one range.
    assert_eq!(
        GlobalConflictSolver::utility_score(&candidate, RetryScopeStage::Full, &tuning()),
        600_000_000 + 900_000_000 + 100_000_000 - 20_000_000
    );
    assert_eq!(
        GlobalConflictSolver::utility_score(&candidate, RetryScopeStage::LineLocal, &tuning()),
        600_000_000 + 900_000_000 + 100_000_000 + 80_000_000 - 20_000_000
    );
    candidate.risk_tier = CandidateRiskTier::High;
    assert_eq!(
        GlobalConflictSolver::utility_score(&candidate, RetryScopeStage::CulpritRegion, &tuning()),
        600_000_000 + 900_000_000 + 20_000_000 - 150_000_000 - 20_000_000
    );
}

#[test]
fn what_was_selected_keeps_its_line() {
    let first = plain("class_layout", 9, 100_000_000);
    let second = plain("compact_declarations", 9, 900_000_000);
    let result = GlobalConflictSolver::solve(&[second], &[first], RetryScopeStage::Full, &tuning());
    assert!(result.accepted.is_empty());
    assert!(result.dropped_lines.contains(&9));
}

#[test]
fn accepted_edits_never_share_a_line() {
    let mut many = Vec::new();
    for line in 1..30usize {
        many.push(plain("class_layout", line % 7 + 1, 10_000_000 * line as i64));
        many.push(plain("compact_declarations", line % 5 + 1, 9_000_000 * line as i64));
    }
    let result = GlobalConflictSolver::solve(&many, &[], RetryScopeStage::NodeLocal, &tuning());
    let mut lines: Vec<usize> = result.accepted.iter().map(|c| c.line).collect();
    lines.sort();
    let count = lines.len();
    lines.dedup();
    assert_eq!(lines.len(), count);
    assert!(count > 0);
}

#[test]
fn overlaps_are_told() {
    assert!(GlobalConflictSolver::ranges_overlap(&[(1, 4)], &[(4, 9)]));
    assert!(!GlobalConflictSolver::ranges_overlap(&[(1, 3)], &[(4, 9)]));
    assert!(GlobalConflictSolver::symbols_overlap(&[3, 8], &[8]));
    assert!(!GlobalConflictSolver::symbols_overlap(&[3], &[]));
}

#[test]
fn derivation_proposer_penalties() {
    let state = CertaintyFilterState::new();
    assert_eq!(state.trust_deficit_penalty(), 0);
    assert_eq!(state.confidence_penalty(), 0);
    let seen = CertaintyFilterState { observation_count: 3, ..state };
    assert_eq!(seen.trust_deficit_penalty(), 223_606_797);
    assert_eq!(seen.confidence_penalty(), 300_000_000);
}

#[test]
fn derivation_richness_multiplier() {
    assert_eq!(CertaintyFilterState::new().richness_multiplier(), 1_000_000_000);
}

#[test]
fn derivation_style_gain() {
    let weights = CertaintyFilterState::new().style_gain_weights();
    assert_eq!(weights.base, 600_000_000);
    assert_eq!(weights.whitespace_bonus, 400_000_000);
    assert_eq!(weights.delta_bonus, 200_000_000);
}

#[test]
fn derivation_stabilizer_bonus() {
    let state = CertaintyFilterState::new();
    assert_eq!(state.stabilizer_bonus(0), 100_000_000);
    assert_eq!(state.stabilizer_bonus(1), 50_000_000);
    assert_eq!(state.stabilizer_bonus(2), 0);
}

#[test]
fn derivation_scope_bonus() {
    let state = CertaintyFilterState::new();
    assert_eq!(state.scope_bonus(0), 80_000_000);
    assert_eq!(state.scope_bonus(1), 40_000_000);
}

#[test]
fn derivation_risk_penalty() {
    let state = CertaintyFilterState::new();
    assert_eq!(state.risk_penalty(2), 150_000_000);
    assert_eq!(state.risk_penalty(1), 50_000_000);
    assert_eq!(state.risk_penalty(0), 0);
}

#[test]
fn derivation_footprint_weights() {
    assert_eq!(CertaintyFilterState::new().footprint_weights(), (20_000_000, 10_000_000));
}

#[test]
fn weights_stay_within_a_millionth() {
    let near = |weight: i64, expected: f64| {
        (weight as f64 / 1_000_000_000.0 - expected).abs() < 1e-6
    };
    for estimate in [0.0, 0.123456789, 0.5, 0.77, 1.0] {
        let share = (estimate * 1_000_000_000.0_f64).round() as u32;
        let state = CertaintyFilterState {
            estimates: [share; 5],
            variances: [share; 5],
            observation_count: 3,
        };
        let style = state.style_gain_weights();
        assert!(near(style.base.into(), estimate * 0.60 / 0.85));
        assert!(near(style.whitespace_bonus.into(), estimate * 0.40 / 0.85));
        assert!(near(style.delta_bonus.into(), estimate * 0.20 / 0.85));
        assert!(near(state.stabilizer_bonus(0).into(), estimate * 0.10 / 0.85));
        assert!(near(state.stabilizer_bonus(1).into(), estimate * 0.05 / 0.85));
        assert!(near(state.scope_bonus(0).into(), estimate * 0.16));
        assert!(near(state.scope_bonus(1).into(), estimate * 0.08));
        assert!(near(state.risk_penalty(1).into(), (1.0 - estimate) / 3.0));
        assert!(near(state.risk_penalty(2).into(), 1.0 - estimate));
        assert!(near(state.footprint_weights().0.into(), estimate * 0.2));
        assert!(near(state.footprint_weights().1.into(), estimate * 0.1));
        assert!(near(state.stddev(4).into(), estimate.sqrt()));
    }
}

#[test]
fn derivation_component_threshold() {
    assert_eq!(CertaintyFilterState::new().component_threshold(), 16);
}

#[test]
fn derivation_fuzzy_min() {
    let state = CertaintyFilterState::new();
    assert_eq!(state.fuzzy_min_semantic(), 3);
    assert_eq!(state.fuzzy_min_other(), 1);
}

#[test]
fn derivation_diagnostic_weights() {
    let weights = CertaintyFilterState::new().diagnostic_weights();
    assert_eq!(weights.note, 1);
    assert_eq!(weights.warning, 3);
    assert_eq!(weights.error, 8);
    assert_eq!(weights.fatal, 12);
}

#[test]
fn derivation_identity_shift_tol() {
    assert_eq!(CertaintyFilterState::new().identity_shift_tolerance(), 4);
}

#[test]
fn derivation_semantic_penalties() {
    let penalties = CertaintyFilterState::new().transition_penalties();
    assert_eq!(penalties.identity, 90);
    assert_eq!(penalties.reference, 70);
    assert_eq!(penalties.usage, 55);
    assert_eq!(penalties.orphan, 65);
    assert_eq!(penalties.scope, 80);
}

fn near(share: u32, expected: f64, slack: f64) -> bool {
    (share as f64 / 1_000_000_000.0 - expected).abs() < slack
}

#[test]
fn derivation_cluster_relax() {
    let limits = CertaintyFilterState::new().cluster_limits();
    assert!(near(limits.relax_stability, 0.80, 0.001));
    assert!(near(limits.relax_uncertainty, 0.18, 0.001));
}

#[test]
fn derivation_cluster_harden() {
    let limits = CertaintyFilterState::new().cluster_limits();
    assert!(near(limits.harden_stability, 0.55, 0.001));
    assert!(near(limits.harden_uncertainty, 0.44, 0.002));
    assert!(near(limits.harden_revert_rate, 0.22, 0.001));
}

#[test]
fn derivation_cluster_caps() {
    let limits = CertaintyFilterState::new().cluster_limits();
    assert!(near(limits.cap1_stability, 0.40, 0.001));
    assert!(near(limits.cap1_reliability, 0.30, 0.001));
    assert!(near(limits.cap3_stability, 0.60, 0.001));
    assert!(near(limits.cap3_uncertainty, 0.35, 0.002));
}

#[test]
fn derivation_pipeline() {
    let state = CertaintyFilterState::new();
    assert_eq!(state.semantic_confidence_bp_base(), 200);
    assert_eq!(state.retry_batch(), usize::MAX);
    let doubtful = CertaintyFilterState {
        estimates: [700_000_000, 500_000_000, 500_000_000, 500_000_000, 850_000_000],
        ..state
    };
    assert_eq!(doubtful.retry_batch(), 512);
}

#[test]
fn default_estimates_match() {
    let state = CertaintyFilterState::new();
    assert_eq!(state.estimates, [850_000_000, 500_000_000, 500_000_000, 500_000_000, 850_000_000]);
}

#[test]
fn default_variance_match() {
    let state = CertaintyFilterState::new();
    assert!(near(state.variance(0), 0.05, 1e-10));
    assert!(near(state.variance(1), 0.10, 1e-10));
    assert!(near(state.variance(2), 0.10, 1e-10));
    assert!(near(state.variance(3), 0.10, 1e-10));
    assert!(near(state.variance(4), 0.05, 1e-10));
}
