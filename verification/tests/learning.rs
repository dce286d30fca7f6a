use policy_engine::compdb::SemanticCompdbContextKind;
use policy_engine::fuzzy_inference::{
    diagnostic_weights, fuzzy_batch_dropped_cap, fuzzy_batch_lines, fuzzy_confidence_bonus,
    fuzzy_conflict_neighborhood, fuzzy_constraint_override, fuzzy_context_tol, fuzzy_edit_radius,
    fuzzy_error_cap, fuzzy_failure_deduction, fuzzy_fidelity_deduction, fuzzy_guard_relax,
    fuzzy_impact_cap, fuzzy_locality_radius, fuzzy_ref_radius, fuzzy_relaxation_limits,
    fuzzy_reobs_interval, fuzzy_scope_cap, fuzzy_severity_weight, fuzzy_symbol_cap,
    fuzzy_transition_penalty, fuzzy_transition_tols, fuzzy_zone_relax, kalman_interp,
    transition_penalties, PolicyCertainty, DEFAULT_TRUST,
};
use policy_engine::names::NameMap;
use policy_engine::retry_optimizer::{
    ContextTable, PersistedRetryStrategyState, RetryStrategyOptimizer,
    RetryStrategyOptimizerConfig, StateFile, StrategyStats,
};
use policy_engine::semantic_contract::SemanticInvariantClause;

fn certainty(share: u32) -> PolicyCertainty {
    PolicyCertainty {
        structural: share,
        semantic: share,
        coverage: share,
        richness: share,
        semantic_lower_ci: share,
        edit_success_lower_ci: share,
        stable_model_prob: share,
        noisy_model_prob: 0,
        general_trust: share,
        structural_trust: share,
        observation_count: 10,
    }
}

#[test]
fn interpolation_meets_its_three_points() {
    let radius = |x: i64| kalman_interp(x, 2_000_000_000, 4_000_000_000, 7_000_000_000);
    assert_eq!(radius(0), 2_000_000_000);
    assert_eq!(radius(500_000_000), 4_000_000_000);
    assert_eq!(radius(1_000_000_000), 7_000_000_000);
    assert_eq!(radius(750_000_000), 5_500_000_000);
    assert_eq!(radius(-250_000_000), 2_000_000_000);
    assert_eq!(radius(i64::MIN), 2_000_000_000);
    assert_eq!(radius(i64::MAX), 7_000_000_000);
    let falling = |x: i64| kalman_interp(x, 1_400_000_000, 1_000_000_000, 600_000_000);
    assert_eq!(falling(250_000_000), 1_200_000_000);
    assert_eq!(kalman_interp(4_000_000_000, 0, 1, 2), 2);
    assert_eq!(kalman_interp(250_000_000, -1_000_000_000, 0, 1_000_000_000), -500_000_000);
    assert_eq!(kalman_interp(500_000_000, i64::MIN, i64::MAX, i64::MIN), i64::MAX);
    assert_eq!(kalman_interp(1_000_000_000, i64::MIN, i64::MAX, i64::MIN), i64::MIN);
}

#[test]
fn default_trust_gives_the_table_values() {
    let t = DEFAULT_TRUST;
    assert_eq!(fuzzy_severity_weight(0, t), 1);
    assert_eq!(fuzzy_severity_weight(1, t), 3);
    assert_eq!(fuzzy_severity_weight(2, t), 8);
    assert_eq!(fuzzy_severity_weight(3, t), 12);
    assert_eq!(diagnostic_weights(t).error, 8);
    assert_eq!(fuzzy_transition_penalty(0, t), 90);
    assert_eq!(fuzzy_transition_penalty(9, t), 70);
    assert_eq!(transition_penalties(t).scope, 80);
    assert_eq!(fuzzy_context_tol(1, t), (24, 4));
    assert_eq!(fuzzy_context_tol(9, t), (8, 5));
    assert_eq!(fuzzy_impact_cap(t), 256);
    assert_eq!(fuzzy_scope_cap(t), 192);
    assert_eq!(fuzzy_symbol_cap(t), 128);
    assert_eq!(fuzzy_batch_dropped_cap(t), 8);
    assert_eq!(fuzzy_reobs_interval(t), 3);
    assert_eq!(fuzzy_confidence_bonus(0, t), 300);
    assert_eq!(fuzzy_confidence_bonus(4, t), 80);
    assert_eq!(fuzzy_failure_deduction(1, t), 260);
    assert_eq!(fuzzy_error_cap(t), 10);
    assert_eq!(fuzzy_conflict_neighborhood(t, true), 8);
    assert_eq!(fuzzy_conflict_neighborhood(t, false), 4);
    assert_eq!(fuzzy_locality_radius(None), 4);
    assert_eq!(fuzzy_fidelity_deduction(1_000_000_000, t), 0);
    assert_eq!(fuzzy_fidelity_deduction(500_000_000, t), 180);
    assert_eq!(fuzzy_fidelity_deduction(0, 1_000_000_000), 456);
}

#[test]
fn trust_moves_the_limits() {
    assert_eq!(fuzzy_severity_weight(3, 0), 8);
    assert_eq!(fuzzy_severity_weight(3, 1_000_000_000), 16);
    assert_eq!(fuzzy_transition_penalty(2, 0), 36);
    assert_eq!(fuzzy_context_tol(1, 0), (34, 6));
    assert_eq!(fuzzy_impact_cap(1_000_000_000), 512);
    assert_eq!(fuzzy_locality_radius(Some(&certainty(1_000_000_000))), 7);
    assert_eq!(fuzzy_ref_radius(0, 500_000_000), 0);
    assert_eq!(fuzzy_ref_radius(4_096, 500_000_000), 2);
    assert_eq!(fuzzy_edit_radius(24, 500_000_000), 1);
}

#[test]
fn batches_shrink_with_errors() {
    assert_eq!(fuzzy_batch_lines(&certainty(1_000_000_000), 0), usize::MAX);
    assert_eq!(fuzzy_batch_lines(&certainty(1_000_000_000), 5), 30);
    assert_eq!(fuzzy_batch_lines(&certainty(0), 1), 30);
    let unseen = PolicyCertainty { observation_count: 2, ..certainty(1_000_000_000) };
    // One error leaves four fifths of the default trust.
    assert_eq!(fuzzy_batch_lines(&unseen, 1), 166);
}

#[test]
fn only_known_files_are_relaxed() {
    assert!(!fuzzy_guard_relax(None));
    assert!(!fuzzy_zone_relax(None));
    assert!(fuzzy_guard_relax(Some(&certainty(700_000_000))));
    assert!(fuzzy_zone_relax(Some(&certainty(700_000_000))));
    assert!(!fuzzy_guard_relax(Some(&certainty(200_000_000))));
    assert!(!fuzzy_zone_relax(Some(&certainty(200_000_000))));
    assert!(fuzzy_constraint_override(
        Some(&certainty(900_000_000)),
        SemanticInvariantClause::EditSafety
    ));
    assert!(!fuzzy_constraint_override(
        Some(&certainty(900_000_000)),
        SemanticInvariantClause::SymbolIdentity
    ));
    assert!(!fuzzy_constraint_override(None, SemanticInvariantClause::EditSafety));
}

#[test]
fn relaxed_checks_have_limits() {
    assert_eq!(fuzzy_relaxation_limits(0, None), (8, 48));
    assert_eq!(fuzzy_relaxation_limits(1, None), (1, 10));
    assert_eq!(fuzzy_relaxation_limits(2, Some(&certainty(0))), (0, 0));
    assert_eq!(fuzzy_relaxation_limits(0, Some(&certainty(0))), (11, 67));
    assert_eq!(fuzzy_relaxation_limits(1, Some(&certainty(1_000_000_000))), (1, 6));
}

#[test]
fn tolerances_follow_what_is_known() {
    let lines = std::collections::BTreeSet::from([1, 2]);
    let kind = SemanticCompdbContextKind::HeaderConsensus;
    assert_eq!(fuzzy_transition_tols(kind, 4, 3, Some(&certainty(0)), None), (4, 3));
    assert_eq!(fuzzy_transition_tols(kind, 4, 3, None, Some(&lines)), (10, 7));
    assert_eq!(
        fuzzy_transition_tols(kind, 4, 3, Some(&certainty(1_000_000_000)), Some(&lines)),
        (8, 5)
    );
    assert_eq!(
        fuzzy_transition_tols(kind, usize::MAX, 3, Some(&certainty(0)), Some(&lines)),
        (usize::MAX, 10)
    );
}

fn stats(attempts: u64, successes: u64, ema_success: u32) -> StrategyStats {
    StrategyStats { attempts, successes, ema_success }
}

fn shard(
    observations: u64,
    s: StrategyStats,
    ema: u32,
    bonus: i32,
    updates: u64,
    at: u64,
) -> PersistedRetryStrategyState {
    PersistedRetryStrategyState {
        schema_version: 2,
        total_observations: observations,
        global: NameMap::new().put("top_only", s),
        by_context: ContextTable::new()
            .with("tree_error_regressed", NameMap::new().put("top_only", s)),
        ema_retry_success: ema,
        tuned_max_bonus: bonus,
        auto_tune_updates: updates,
        last_updated_unix_ms: at,
    }
}

fn config() -> RetryStrategyOptimizerConfig {
    RetryStrategyOptimizerConfig { auto_tune_min_bonus: 0, auto_tune_max_bonus_cap: 400 }
}

#[test]
fn merge_state_files_accumulates_worker_shards() {
    let a = shard(5, stats(5, 5, 1_000_000_000), 1_000_000_000, 150, 1, 10);
    let b = shard(7, stats(7, 6, 900_000_000), 900_000_000, 140, 2, 20);
    let merged = RetryStrategyOptimizer::merge_state_files(
        PersistedRetryStrategyState::default(),
        &[a, b],
        &config(),
    )
    .expect("merge");
    let (merged, reason) = RetryStrategyOptimizer::load_state(StateFile::Decoded(merged));
    assert_eq!(reason, None);
    assert_eq!(merged.total_observations, 12);
    assert_eq!(merged.auto_tune_updates, 3);
    assert!(merged.tuned_max_bonus >= 140);
    assert_eq!(merged.tuned_max_bonus, 144);
    assert_eq!(merged.last_updated_unix_ms, 20);
    assert_eq!(merged.ema_retry_success, 941_666_666);
    let both = stats(12, 11, 941_666_666);
    assert_eq!(merged.global.get("top_only"), Some(both));
    let context = merged.by_context.get("tree_error_regressed").expect("context");
    assert_eq!(context.get("top_only"), Some(both));
    assert_eq!(merged.by_context.len(), 1);
}

#[test]
fn idle_workers_write_nothing() {
    let idle = shard(0, stats(9, 9, 1_000_000_000), 0, 300, 9, 9);
    assert!(RetryStrategyOptimizer::merge_state_files(
        PersistedRetryStrategyState::default(),
        &[idle],
        &config(),
    )
    .is_none());
    assert!(RetryStrategyOptimizer::merge_state_files(
        PersistedRetryStrategyState::default(),
        &[],
        &config(),
    )
    .is_none());
}

#[test]
fn unusable_files_are_put_aside() {
    let (state, reason) = RetryStrategyOptimizer::load_state(StateFile::Missing);
    assert_eq!(state.total_observations, 0);
    assert_eq!(reason, None);
    let (_, reason) =
        RetryStrategyOptimizer::load_state(StateFile::Broken("short read".to_string()));
    assert_eq!(reason, Some("decode_failed: short read".to_string()));
    let old = PersistedRetryStrategyState {
        schema_version: 1,
        total_observations: 4,
        ..PersistedRetryStrategyState::default()
    };
    let (state, reason) = RetryStrategyOptimizer::load_state(StateFile::Decoded(old));
    assert_eq!(state.total_observations, 0);
    assert_eq!(reason, Some("schema_mismatch expected=2 found=1".to_string()));
    assert_eq!(
        RetryStrategyOptimizer::quarantine_name(Some("state.bin"), 1_700_000_000_123),
        "state.bin.corrupt.1700000000123"
    );
    assert_eq!(
        RetryStrategyOptimizer::quarantine_name(None, 5),
        "retry_strategy_optimizer_state.bin.corrupt.5"
    );
}

#[test]
fn bonuses_stay_within_their_bounds() {
    let bounds = |low, high| {
        RetryStrategyOptimizer::bonus_bounds_for_config(&RetryStrategyOptimizerConfig {
            auto_tune_min_bonus: low,
            auto_tune_max_bonus_cap: high,
        })
    };
    assert_eq!(bounds(-5, -5), (0, 1));
    assert_eq!(bounds(7, 3), (7, 7));
    assert_eq!(bounds(2, 9), (2, 9));
    let tight = RetryStrategyOptimizerConfig { auto_tune_min_bonus: 10, auto_tune_max_bonus_cap: 20 };
    let merged = RetryStrategyOptimizer::merge_states(
        shard(1, stats(1, 0, 0), 0, -900, 0, 0),
        &shard(1, stats(1, 0, 0), 0, -100, 0, 0),
        &tight,
    );
    assert_eq!(merged.tuned_max_bonus, 10);
}

#[test]
fn counts_stop_at_the_largest_number() {
    let merged = RetryStrategyOptimizer::merge_states(
        shard(u64::MAX, stats(u64::MAX, 1, 1_000_000_000), 0, 5, u64::MAX, 0),
        &shard(3, stats(3, 1, 0), 0, 5, 3, 0),
        &config(),
    );
    assert_eq!(merged.total_observations, u64::MAX);
    assert_eq!(merged.auto_tune_updates, u64::MAX);
    assert_eq!(merged.global.get("top_only").map(|s| s.attempts), Some(u64::MAX));
}
