use std::collections::BTreeSet;

use policy_engine::certainty_filter::CertaintyFilterState;
use policy_engine::compdb::SemanticCompdbContextKind;
use policy_engine::conflict_detector::PolicyConflictDetector;
use policy_engine::context_tracker::BlockContextKind;
use policy_engine::convergence::ConvergenceController;
use policy_engine::enforcement::Enforcement;
use policy_engine::file_context::{SemanticFileContext, SemanticSummary};
use policy_engine::model::{Edit, PolicyResult};
use policy_engine::pipeline::candidate_trace::PolicyCandidateOutcome;
use policy_engine::pipeline::checkpoint::{
    checkpoint_with_errors, recovered_text, ClangErrors, PolicyCheckpointResult, TreeErrors,
};
use policy_engine::pipeline::confidence::{
    harden_enforcement, relax_enforcement, ClusterEnforcementBias,
};
use policy_engine::pipeline::coordinate::{
    coordinate_policy_stage, CoordinatedPolicyStage, ProposalSettings,
};
use policy_engine::pipeline::policy_run::{PolicyStageRun, StageAction};
use policy_engine::pipeline::run::{
    prepare_policy_stage, Admission, AfterCheckpoint, ParseCache, PipelineState,
};
use policy_engine::pipeline::semantic_impact::LineEvidence;
use policy_engine::pipeline::stage::{
    execute_policy_stage, filter_policy_result, revert_untracked, ClusterControls,
    ConfidenceInput, LineTable, StageContext,
};
use policy_engine::post_check::CompdbContext;
use policy_engine::proposer::EditEvidence;
use policy_engine::run_options::{PolicyRunOptions, RetryScopeStage};
use policy_engine::semantic_contract::PolicyGuidanceMode;

fn edit(policy: &str, line: usize, before: &str, after: &str) -> Edit {
    Edit {
        policy: policy.to_string(),
        line,
        before: before.to_string(),
        after: after.to_string(),
    }
}

fn result(text: &str, edits: Vec<Edit>) -> PolicyResult {
    let changed = !edits.is_empty();
    PolicyResult {
        text: text.to_string(),
        violations: Vec::new(),
        edits,
        warnings: Vec::new(),
        changed,
    }
}

fn safe_table() -> LineTable {
    LineTable {
        lines: Vec::new(),
        outside: LineEvidence {
            safe_edit: true,
            safe_global: true,
            has_diagnostic_error: false,
            in_macro_region: false,
            declaration_count: 0,
            reference_count: 0,
        },
    }
}

fn summary() -> SemanticSummary {
    SemanticSummary {
        declaration_count: 0,
        reference_count: 0,
        usr_backed_declaration_count: 0,
        semantic_signature: 0,
    }
}

fn filtered(
    policy: &str,
    before: &str,
    proposed: PolicyResult,
    options: &PolicyRunOptions,
) -> Result<PolicyResult, String> {
    let table = safe_table();
    let errors = BTreeSet::new();
    filter_policy_result(
        before,
        proposed,
        policy,
        options,
        &prepare_policy_stage(policy, None),
        &StageContext {
            compdb: CompdbContext { kind: SemanticCompdbContextKind::Exact, exact: true },
            line_table: Some(&table),
            semantic: None,
            tree_error_lines: &errors,
        },
    )
}

fn staged(
    policy: &str,
    before: &str,
    proposed: PolicyResult,
    controller: &mut ConvergenceController,
    detector: &mut PolicyConflictDetector,
) -> CoordinatedPolicyStage {
    let options = PolicyRunOptions::default();
    let state = CertaintyFilterState::new();
    let semantic = SemanticFileContext::default();
    let kept = filtered(policy, before, proposed, &options).expect("no fatal warning");
    let executed = execute_policy_stage(
        before,
        kept,
        policy,
        &options,
        prepare_policy_stage(policy, None).capability,
        Some(&semantic),
        summary(),
        ConfidenceInput {
            enabled: false,
            has_settings: true,
            enforcement: None,
            default_enforcement: Enforcement::Soft,
            has_semantic_compdb: true,
            tree_parsed: true,
            clang_parsed: true,
        },
        ClusterControls {
            enforcement_bias: ClusterEnforcementBias::Neutral,
            max_impact_radius_cap: None,
        },
        7,
        state.semantic_confidence_bp_base(),
    );
    let evidence: Vec<EditEvidence> = executed
        .result
        .edits
        .iter()
        .map(|_| EditEvidence {
            regions_on_line: vec![],
            region_at: None,
            scope_at: None,
            block_at: Some(BlockContextKind::Function),
            in_macro_region: false,
            safe_edit: true,
            symbol: None,
        })
        .collect();
    let mut block_mods = vec![vec![1_000_000_000; 24]; 6];
    block_mods[2] = vec![800_000_000; 24];
    coordinate_policy_stage(
        before,
        policy,
        executed,
        &evidence,
        &ProposalSettings {
            available: true,
            comment_lines: None,
            scopes_known: true,
            file_mods: &[900_000_000; 24],
            block_mods: &block_mods,
            confidence_penalty: 0,
            trust_deficit_penalty: 0,
            richness_radius: 1,
            style: state.style_gain_weights(),
        },
        &[],
        RetryScopeStage::Full,
        &state.solver_tuning(),
        controller,
        detector,
    )
}

#[test]
fn a_policy_goes_through_all_stages() {
    let input = "int a=1;\nint b;\n";
    let output = "int a = 1;\nint b;\n";
    let mut controller = ConvergenceController::new();
    let mut detector = PolicyConflictDetector::new(true, 3);
    let mut state = PipelineState::new(input, true);
    assert_eq!(
        state.admit_policy(&PolicyRunOptions::default(), "compact_declarations"),
        Admission::Runs
    );
    let proposed =
        result(output, vec![edit("compact_declarations", 1, "int a=1;", "int a = 1;")]);
    assert!(!state.finish_quiet_policy("compact_declarations", &proposed));
    let coordinated = staged(
        "compact_declarations",
        input,
        proposed,
        &mut controller,
        &mut detector,
    );
    assert!(coordinated.text_changed);
    assert_eq!(coordinated.result.text, output);
    assert_eq!(coordinated.accepted_candidates.len(), 1);
    assert_eq!(coordinated.accepted_candidates[0].confidence, 720_000_000);
    assert_eq!(coordinated.candidate_trace.len(), 1);
    assert_eq!(coordinated.candidate_trace[0].outcome, PolicyCandidateOutcome::Selected);
    assert_eq!(coordinated.context_cluster, 7);

    let outcome = checkpoint_with_errors(
        "compact_declarations",
        input,
        &coordinated.result.edits,
        coordinated.text_changed,
        0,
        Some(&TreeErrors { error_nodes: 0, error_lines: BTreeSet::new() }),
        None,
        None,
    );
    assert!(matches!(outcome, PolicyCheckpointResult::Accept { validated: true }));
    let after = state.after_checkpoint(
        "compact_declarations",
        coordinated,
        outcome,
        RetryScopeStage::Full,
        false,
        false,
        usize::MAX,
    );
    assert!(matches!(after, AfterCheckpoint::Done));
    assert_eq!(state.current, output);
    assert_eq!(state.policy_traces.len(), 1);
    assert_eq!(
        state.policy_traces[0].confidence_score.is_some(),
        state.policy_traces[0].confidence_outcome.is_some()
    );
    let finished = state.finish(input, controller);
    assert_eq!(finished.text, output);
    assert_eq!(finished.edits.len(), 1);
    assert!(finished.changed);
}

#[test]
fn new_errors_roll_a_policy_back() {
    let input = "int a;\nint b;\n";
    let mut controller = ConvergenceController::new();
    let mut detector = PolicyConflictDetector::new(true, 3);
    let mut state = PipelineState::new(input, true);
    let proposed = result("int (a;\nint b;\n", vec![edit("class_layout", 1, "int a;", "int (a;")]);
    let coordinated =
        staged("class_layout", input, proposed, &mut controller, &mut detector);
    let outcome = checkpoint_with_errors(
        "class_layout",
        input,
        &coordinated.result.edits,
        coordinated.text_changed,
        0,
        Some(&TreeErrors { error_nodes: 2, error_lines: BTreeSet::from([1]) }),
        None,
        None,
    );
    match &outcome {
        PolicyCheckpointResult::Rollback { reason, after_error_count } => {
            assert_eq!(
                reason,
                "checkpoint: 'class_layout' introduced 2 new error node(s) — rolling back"
            );
            assert_eq!(*after_error_count, 2);
        }
        other => panic!("expected a rollback, got {other:?}"),
    }
    let after = state.after_checkpoint(
        "class_layout",
        coordinated,
        outcome,
        RetryScopeStage::Full,
        false,
        false,
        1,
    );
    // The file has more lines than the batch, so the policy runs once more.
    let reason = match after {
        AfterCheckpoint::RunAgain { reason } => reason,
        AfterCheckpoint::Done => panic!("expected a second run"),
    };
    assert_eq!(state.current, input);
    assert_eq!(state.take_retry_batch(), Some(1));
    assert!(state.finish_idle_retry(input, &reason));
    assert!(state.all_warnings.contains(&reason));
    let finished = state.finish(input, controller);
    assert_eq!(finished.text, input);
    assert!(finished.edits.is_empty());
}

#[test]
fn edits_away_from_errors_survive() {
    let current = "a\nb\n";
    let edits = vec![edit("p", 1, "a\n", "x\n"), edit("p", 2, "b\n", "(\n")];
    let errors = TreeErrors { error_nodes: 1, error_lines: BTreeSet::from([2]) };
    let recovered = recovered_text(current, &edits, &errors.error_lines).expect("one edit stays");
    assert_eq!(recovered, "x\nb\n");
    let outcome =
        checkpoint_with_errors("p", current, &edits, true, 0, Some(&errors), None, Some(0));
    match outcome {
        PolicyCheckpointResult::PartialRollback { recovered_text, recovered_edits, warning } => {
            assert_eq!(recovered_text, "x\nb\n");
            assert_eq!(recovered_edits.len(), 1);
            assert_eq!(
                warning,
                "checkpoint: 'p' partial rollback recovered 1 of 2 edits (1 error lines excluded)"
            );
        }
        other => panic!("expected a partial rollback, got {other:?}"),
    }
    // Where the compiler finds no more errors than before, the text stays.
    let kept = checkpoint_with_errors(
        "p",
        current,
        &edits,
        true,
        0,
        Some(&errors),
        Some(ClangErrors { before: 3, after: 3 }),
        None,
    );
    assert!(matches!(kept, PolicyCheckpointResult::Accept { validated: true }));
}

#[test]
fn blocked_and_skipped_policies_leave_the_text() {
    let mut state = PipelineState::new("a\n", false);
    let options = PolicyRunOptions {
        blocked_policies: vec!["p".to_string()],
        skip_zero_edit_policies: Some(vec!["q".to_string()]),
        ..PolicyRunOptions::default()
    };
    assert_eq!(state.admit_policy(&options, "p"), Admission::Blocked);
    assert_eq!(state.admit_policy(&options, "q"), Admission::Skipped);
    assert_eq!(state.admit_policy(&options, "r"), Admission::Runs);
    assert_eq!(state.current, "a\n");
    assert_eq!(state.policy_traces.len(), 2);
    assert_eq!(state.policy_traces[0].parse_mode, "blocked");
    assert_eq!(state.all_warnings, vec!["retry guard skipped policy 'p'"]);
}

#[test]
fn parses_are_made_once_and_redone_after_a_change() {
    let mut cache = ParseCache::new(true);
    let plan = cache.plan();
    assert!(plan.tree && plan.clang);
    assert!(cache.finish_parse());
    let plan = cache.plan();
    assert!(!plan.tree && !plan.clang);
    assert!(!cache.finish_parse());
    cache.invalidate(true, true);
    let plan = cache.plan();
    assert!(plan.tree && plan.clang);
    assert!(!ParseCache::new(false).plan().clang);
}

#[test]
fn text_without_edits_is_taken_back() {
    let mut silent = result("changed\n", Vec::new());
    silent.changed = true;
    let reverted = revert_untracked("before\n", silent, "guard", "p");
    assert_eq!(reverted.text, "before\n");
    assert_eq!(reverted.warnings, vec!["guard: reverted untracked text delta for 'p'"]);
}

#[test]
fn edits_outside_the_allowed_lines_are_dropped() {
    let options = PolicyRunOptions {
        allowed_edit_lines: Some(BTreeSet::from([2])),
        retry_scope_stage: RetryScopeStage::LineLocal,
        ..PolicyRunOptions::default()
    };
    let proposed = result(
        "x\ny\n",
        vec![edit("class_layout", 1, "a", "x"), edit("class_layout", 2, "b", "y")],
    );
    let kept = filtered("class_layout", "a\nb\n", proposed, &options).expect("no fatal warning");
    assert_eq!(kept.text, "a\ny\n");
    assert_eq!(kept.edits.len(), 1);
}

#[test]
fn enforcement_moves_one_step() {
    assert_eq!(harden_enforcement(relax_enforcement(Enforcement::Hard)), Enforcement::Hard);
    assert_eq!(relax_enforcement(Enforcement::Hard), Enforcement::Soft);
}

#[test]
fn stages_round_trip_through_their_labels() {
    for stage in [
        RetryScopeStage::Full,
        RetryScopeStage::CulpritRegion,
        RetryScopeStage::NodeLocal,
        RetryScopeStage::LineLocal,
    ] {
        assert_eq!(RetryScopeStage::from_serialized(stage.as_str()), Some(stage));
    }
    assert_eq!(RetryScopeStage::from_serialized("nowhere"), None);
}

#[test]
fn a_stage_asks_for_its_work_in_order() {
    let input = "int a;\nint b;\n";
    let mut controller = ConvergenceController::new();
    let mut detector = PolicyConflictDetector::new(true, 3);
    let mut state = PipelineState::new(input, false);
    let options = PolicyRunOptions::default();
    let (mut stage, action) = PolicyStageRun::begin(&mut state, &options, "class_layout", None);
    match action {
        StageAction::Propose { plan } => assert!(plan.tree && !plan.clang),
        other => panic!("expected a proposal, got {other:?}"),
    }
    let broken =
        || result("int (a;\nint b;\n", vec![edit("class_layout", 1, "int a;", "int (a;")]);
    for run in 0..2 {
        let coordinated =
            staged("class_layout", input, broken(), &mut controller, &mut detector);
        let action = stage.coordinated(&mut state, coordinated);
        let coordinated = match action {
            StageAction::Checkpoint { coordinated } => coordinated,
            other => panic!("expected a checkpoint, got {other:?}"),
        };
        let outcome = PolicyCheckpointResult::Rollback {
            reason: format!("rollback {run}"),
            after_error_count: 1,
        };
        let next = stage.checked(&mut state, coordinated, outcome, 1);
        if run == 0 {
            assert!(matches!(next, StageAction::Propose { .. }));
            assert_eq!(stage.again.as_deref(), Some("rollback 0"));
            assert_eq!(state.take_retry_batch(), Some(1));
        } else {
            // There is no third run.
            assert!(matches!(next, StageAction::Done));
        }
    }
    assert_eq!(state.current, input);
    assert_eq!(state.all_warnings, vec!["rollback 1"]);
}

#[test]
fn a_stage_that_is_kept_out_is_done() {
    let mut state = PipelineState::new("a\n", false);
    let options = PolicyRunOptions {
        blocked_policies: vec!["class_layout".to_string()],
        ..PolicyRunOptions::default()
    };
    let (stage, action) = PolicyStageRun::begin(&mut state, &options, "class_layout", Some(true));
    assert!(matches!(action, StageAction::Done));
    assert_eq!(stage.prepared.guidance_mode, PolicyGuidanceMode::HardInvariant);
}

#[test]
fn a_second_batch_keeps_the_lines_of_the_first() {
    let input = "int a;\nint b;\n";
    let mut controller = ConvergenceController::new();
    let mut detector = PolicyConflictDetector::new(true, 3);
    let policy = "compact_declarations";
    let both = result(
        "int (a;\nint (b;\n",
        vec![edit(policy, 1, "int a;", "int (a;"), edit(policy, 2, "int b;", "int (b;")],
    );
    let first = staged(policy, input, both, &mut controller, &mut detector);
    assert_eq!(first.result.edits.len(), 2);
    let one = result("int x;\nint b;\n", vec![edit(policy, 1, "int a;", "int x;")]);
    let second = staged(policy, input, one, &mut controller, &mut detector);
    assert_eq!(second.result.text, "int x;\nint b;\n");
    assert_eq!(second.result.edits.len(), 1);
}
