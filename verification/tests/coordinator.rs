use std::collections::BTreeSet;

use policy_engine::accuracy_gate::AccuracyGateConfig;
use policy_engine::compdb::SemanticCompdbContextKind;
use policy_engine::coordinator::{
    CheckStep, ClusterOutcome, FormatPassResult, FormatterEngine, PassStep, RetryConfig,
    UNTRACKED_TEXT_DELTA_SYNTHESIS_CAP,
};
use policy_engine::file_context::SemanticFileContext;
use policy_engine::format_run::{FormatAction, FormatRun};
use policy_engine::model::{Edit, PolicyResult};
use policy_engine::names::NameMap;
use policy_engine::post_check::{
    ClangDiagnosticSummary, ErrorRatio, FailureKinds, PostEditCheckBaseline, PostEditCheckResult,
    PostEditFailureKind,
};
use policy_engine::semantic_contract::snapshot::{LineName, SemanticContractSnapshot};
use policy_engine::semantic_contract::SemanticContract;

fn edit(policy: &str, line: usize, before: &str, after: &str) -> Edit {
    Edit {
        policy: policy.to_string(),
        line,
        before: before.to_string(),
        after: after.to_string(),
    }
}

fn result_with(text: &str) -> PolicyResult {
    PolicyResult {
        text: text.to_string(),
        violations: Vec::new(),
        edits: Vec::new(),
        warnings: Vec::new(),
        changed: false,
    }
}

fn check_with(kinds: &[PostEditFailureKind], lines: &[usize]) -> PostEditCheckResult {
    let mut failure_kinds = FailureKinds::new();
    for kind in kinds {
        failure_kinds.insert(*kind);
    }
    PostEditCheckResult {
        accepted: false,
        failure_kinds,
        culprit_lines: lines.iter().copied().collect(),
        ..PostEditCheckResult::clean()
    }
}

fn engine(checks: bool, fail_closed: bool) -> FormatterEngine {
    FormatterEngine::new(
        RetryConfig {
            post_edit_check_enabled: checks,
            post_edit_fail_on_parser_unavailable: false,
        },
        AccuracyGateConfig { fail_closed, ..AccuracyGateConfig::default() },
    )
}

#[test]
fn normalize_synthesizes_edits() {
    let mut result = result_with("changed");
    let normalized = FormatterEngine::normalize_untracked_text_delta("baseline", &mut result);
    assert!(!normalized);
    assert_eq!(result.text, "changed");
    assert_eq!(result.edits.len(), 1);
    assert_eq!(result.edits[0].policy, "retry_guard");
    assert!(result.warnings.iter().any(|warning| warning.contains("synthesized")));
}

#[test]
fn normalize_synthesizes_eof() {
    let mut result = result_with("baseline\n");
    let normalized = FormatterEngine::normalize_untracked_text_delta("baseline", &mut result);
    assert!(!normalized);
    assert_eq!(result.text, "baseline\n");
    assert_eq!(result.edits.len(), 1);
    assert!(result.warnings.iter().any(|warning| warning.contains("synthesized")));
}

#[test]
fn normalize_discards_oversized() {
    let mut changed = String::new();
    for index in 0..=UNTRACKED_TEXT_DELTA_SYNTHESIS_CAP {
        changed.push_str(format!("line_{index}\n").as_str());
    }
    let mut result = result_with(&changed);
    let normalized = FormatterEngine::normalize_untracked_text_delta("baseline\n", &mut result);
    assert!(normalized);
    assert_eq!(result.text, "baseline\n");
    assert!(result.edits.is_empty());
    assert!(result
        .warnings
        .iter()
        .any(|warning| warning.contains("discarded oversized untracked text delta")));
}

#[test]
fn normalize_keeps_tracked() {
    let mut result = result_with("changed");
    result.edits.push(edit("compact_declarations", 10, "a", "b"));
    let normalized = FormatterEngine::normalize_untracked_text_delta("baseline", &mut result);
    assert!(!normalized);
    assert_eq!(result.text, "changed");
}

fn declared_at(line: usize, id: &str, decl_line: usize) -> SemanticContractSnapshot {
    let mut snapshot = SemanticContract::new().snapshot(&SemanticFileContext::default());
    snapshot.identity.decl_ids_by_line.push(LineName { line, name: id.to_string() });
    snapshot.identity.id_decl_lines = NameMap::new().put(id, decl_line);
    snapshot
}

#[test]
fn culprit_traces_declaration() {
    let edits = vec![edit("naming_conventions", 10, "int myVar", "int my_var")];
    let check =
        check_with(&[PostEditFailureKind::SemanticReferenceIntegrityRegressed], &[20, 25, 30]);
    let snapshot = declared_at(20, "sid_myVar", 10);
    let result = FormatterEngine::causal_culprit_policies(&edits, &check, Some(&snapshot));
    assert!(result.contains("naming_conventions"));
}

#[test]
fn culprit_direct_fallback() {
    let edits = vec![edit("compact_declarations", 20, "a=1", "a = 1")];
    let check = check_with(&[PostEditFailureKind::SemanticReferenceIntegrityRegressed], &[20]);
    let result = FormatterEngine::causal_culprit_policies(&edits, &check, None);
    assert!(result.contains("compact_declarations"));
}

#[test]
fn culprit_union_both() {
    let edits = vec![
        edit("naming_conventions", 10, "int myVar", "int my_var"),
        edit("compact_declarations", 25, "a=1", "a = 1"),
    ];
    let check = check_with(
        &[
            PostEditFailureKind::SemanticReferenceIntegrityRegressed,
            PostEditFailureKind::SemanticIdentityRegressed,
        ],
        &[20, 25],
    );
    let snapshot = declared_at(20, "sid_myVar", 10);
    let result = FormatterEngine::causal_culprit_policies(&edits, &check, Some(&snapshot));
    assert!(result.contains("naming_conventions"));
    assert!(result.contains("compact_declarations"));
}

#[test]
fn scope_accepts_same() {
    let check = check_with(&[PostEditFailureKind::SemanticReferenceIntegrityRegressed], &[150]);
    let edited_lines = BTreeSet::from([100]);
    let (local, total) =
        FormatterEngine::scope_aware_culprit_locality(&check, &edited_lines, 2, &[(80, 200)]);
    assert_eq!(total, 1);
    assert_eq!(local, 1);
}

#[test]
fn scope_rejects_different() {
    let check = check_with(&[PostEditFailureKind::SemanticReferenceIntegrityRegressed], &[50]);
    let edited_lines = BTreeSet::from([100]);
    let (local, total) = FormatterEngine::scope_aware_culprit_locality(
        &check,
        &edited_lines,
        2,
        &[(10, 60), (80, 120)],
    );
    assert_eq!(total, 1);
    assert_eq!(local, 0);
}

#[test]
fn scope_numeric_fallback() {
    let check = check_with(&[PostEditFailureKind::SemanticReferenceIntegrityRegressed], &[102]);
    let edited_lines = BTreeSet::from([100]);
    let (local, total) =
        FormatterEngine::scope_aware_culprit_locality(&check, &edited_lines, 5, &[]);
    assert_eq!(total, 1);
    assert_eq!(local, 1);
}

#[test]
fn line_edits_rebuild_the_text() {
    let edits = FormatterEngine::synthesize_line_edits("a\nb\nc\n", "a\nx\nc\n", "p");
    assert_eq!(edits.len(), 1);
    assert_eq!(edits[0].line, 2);
    assert_eq!(edits[0].before, "b\n");
    assert_eq!(edits[0].after, "x\n");
    assert!(FormatterEngine::synthesize_line_edits("a\n", "a\n", "p").is_empty());
}

#[test]
fn warnings_are_merged_once() {
    let first = vec!["a".to_string(), "b".to_string(), "a".to_string()];
    let second = vec!["b".to_string(), "c".to_string()];
    assert_eq!(FormatterEngine::dedup_warning_slices(&first, &second), vec!["a", "b", "c"]);
    let mut result = result_with("x");
    result.warnings.push("a".to_string());
    FormatterEngine::merge_warnings(&second, &mut result);
    assert_eq!(result.warnings, vec!["b", "c", "a"]);
}

#[test]
fn a_first_pass_without_change_is_kept() {
    let same = result_with("text");
    assert_eq!(engine(true, false).after_pass("text", &same, true, true), PassStep::Keep);
    let other = result_with("other");
    assert_eq!(engine(false, false).after_pass("text", &other, true, true), PassStep::Keep);
    let step = engine(true, false).after_pass("text", &other, true, true);
    assert_ne!(step, PassStep::Keep);
}

#[test]
fn policies_are_found_by_their_lines() {
    let edits = vec![edit("p", 3, "a", "b"), edit("q", 9, "a", "b")];
    let found = FormatterEngine::policies_touching_lines(&edits, &BTreeSet::from([3]));
    assert!(found.contains("p"));
    assert!(!found.contains("q"));
}

fn pass_with(result: PolicyResult) -> FormatPassResult {
    FormatPassResult {
        policy_result: result,
        convergence_pairs: std::collections::BTreeMap::new(),
        policy_traces: Vec::new(),
        accuracy_gate: None,
    }
}

#[test]
fn a_rejected_second_pass_is_reverted() {
    let check = check_with(&[PostEditFailureKind::TreeErrorRegressed], &[3]);
    let mut changed = result_with("changed");
    changed.edits.push(edit("p", 3, "a", "b"));
    let pass = pass_with(changed);
    let accepted = engine(true, false).after_check(true, true, &check, &pass, None);
    assert!(matches!(accepted, CheckStep::Keep { .. }));
    let rejected = engine(true, false).after_check(false, false, &check, &pass, None);
    assert!(matches!(rejected, CheckStep::Revert { .. }));
    let again = engine(true, false).after_check(true, false, &check, &pass, None);
    assert!(matches!(again, CheckStep::RunAgain { .. }));

    let kept = engine(true, false).reverted_result(
        "a.cpp",
        "original",
        pass,
        vec!["why".to_string()],
        2,
    );
    let kept = kept.expect("a failure that is let pass");
    assert_eq!(kept.policy_result.text, "original");
    assert!(kept.policy_result.edits.is_empty());
    assert!(kept.policy_result.warnings.contains(&"why".to_string()));
}

#[test]
fn a_closed_engine_stops_instead() {
    let stopped = engine(true, true).reverted_result(
        "a.cpp",
        "original",
        pass_with(result_with("changed")),
        Vec::new(),
        2,
    );
    assert_eq!(
        stopped.err(),
        Some(
            "accuracy gate fail-closed: post-edit validation failed after 2 attempt(s) for a.cpp"
                .to_string()
        )
    );
}

#[test]
fn a_file_that_is_not_ready_is_stopped_or_warned_of() {
    let config = |fail_closed| {
        FormatterEngine::new(
            RetryConfig {
                post_edit_check_enabled: true,
                post_edit_fail_on_parser_unavailable: false,
            },
            AccuracyGateConfig {
                semantic_required: true,
                fail_closed,
                ..AccuracyGateConfig::default()
            },
        )
    };
    let kind = SemanticCompdbContextKind::Exact;
    assert!(config(true).baseline_required());
    assert!(config(true).check_semantic_requirement("a.cpp", false, None, kind).is_err());
    let warned = config(false).check_semantic_requirement("a.cpp", false, Some("note"), kind);
    assert!(warned.expect("an open engine").is_some());
    let ready = config(true).check_semantic_requirement("a.cpp", true, None, kind);
    assert!(ready.expect("a file that is ready").is_none());
}

#[test]
fn failed_checks_are_reported_and_let_pass() {
    let check = check_with(&[PostEditFailureKind::TreeErrorRegressed], &[3]);
    let mut warnings = Vec::new();
    let outcome =
        engine(true, false).accept_pass_result(&result_with("x"), &check, &mut warnings);
    assert_eq!(outcome, Some(1_000_000_000));
    let clean = PostEditCheckResult::clean();
    let mut none = Vec::new();
    engine(true, false).accept_pass_result(&result_with("x"), &clean, &mut none);
    assert!(none.len() <= warnings.len());
}

#[test]
fn runs_show_how_well_a_file_is_known() {
    assert_eq!(
        FormatterEngine::observe_adaptive(None, 250_000_000),
        [850_000_000, 500_000_000, 500_000_000, 500_000_000, 250_000_000]
    );
    let mut snapshot = SemanticContract::new().snapshot(&SemanticFileContext::default());
    snapshot.summary.reference_count = 20;
    snapshot.summary.declaration_count = 2;
    snapshot.scopes.counts.function = 1;
    let baseline = PostEditCheckBaseline {
        before_tree_error_ratio: Some(ErrorRatio {
            units: 20_000_000,
            shown: "0.0200".to_string(),
        }),
        before_clang_summary: Some(ClangDiagnosticSummary {
            ignored: 0,
            note: 0,
            warning: 3,
            error: 1,
            fatal: 0,
        }),
        before_semantic_snapshot: Some(snapshot),
        ..PostEditCheckBaseline::default()
    };
    assert_eq!(
        FormatterEngine::observe_adaptive(Some(&baseline), 1_000_000_000),
        [980_000_000, 840_000_000, 400_000_000, 100_000_000, 1_000_000_000]
    );
}

fn start(checks: bool, input: &str) -> FormatRun {
    FormatRun::start(
        engine(checks, false),
        "a.cpp",
        input,
        checks,
        true,
        None,
        SemanticCompdbContextKind::Exact,
    )
    .expect("nothing is demanded")
}

#[test]
fn a_run_tells_every_change() {
    let run = start(false, "a\nb\n");
    let pass = match run.pass_done(pass_with(result_with("a\nc\n"))) {
        FormatAction::Keep { pass, outcome, score } => {
            assert_eq!(outcome, ClusterOutcome::Accepted);
            assert_eq!(score, 1_000_000_000);
            pass
        }
        other => panic!("expected a pass that is kept, got {other:?}"),
    };
    assert_eq!(FormatRun::edited_lines(&pass), std::collections::BTreeSet::from([2]));
    assert!(run.decide(&pass).passed());
    let finished = run.finish(pass, "").expect("no threshold is set");
    assert_eq!(finished.policy_result.text, "a\nc\n");
    assert_eq!(finished.policy_result.edits.len(), 1);
}

#[test]
fn a_checked_run_keeps_its_pass_and_reports() {
    let mut run = start(true, "a\n");
    assert!(!FormatRun::first_options(false).observation_only);
    let mut changed = result_with("b\n");
    changed.edits.push(edit("naming_conventions", 1, "a", "b"));
    let pass = match run.pass_done(pass_with(changed)) {
        FormatAction::Check { pass, in_full } => {
            assert!(in_full);
            pass
        }
        other => panic!("expected a check, got {other:?}"),
    };
    let check = check_with(&[PostEditFailureKind::TreeErrorRegressed], &[1]);
    match run.check_done(pass, &check, None) {
        FormatAction::Keep { pass, outcome, score } => {
            assert_eq!(outcome, ClusterOutcome::Regressed);
            assert_eq!(score, 500_000_000);
            let finished = run.finish(pass, "").expect("no threshold is set");
            assert_eq!(finished.policy_result.text, "b\n");
            assert!(finished
                .policy_result
                .warnings
                .iter()
                .any(|warning| warning.contains("post-edit check informational")));
        }
        other => panic!("expected a pass that is kept, got {other:?}"),
    }
}
