use std::collections::BTreeSet;

use policy_engine::certainty_filter::CertaintyFilterState;
use policy_engine::compdb::SemanticCompdbContextKind;
use policy_engine::file_context::{
    ScopeNode, SemanticDeclaration, SemanticFileContext, SemanticIdProvenance, SemanticReference,
    SemanticScope, SemanticScopeKind, SemanticSummary,
};
use policy_engine::fuzzy_inference::{PolicyCertainty, DEFAULT_TRUST};
use policy_engine::post_check::delta::CheckLimits;
use policy_engine::post_check::{
    ClangDiagnosticEntry, ClangDiagnosticSeverity, ClangDiagnosticSummary, ClangReport,
    CompdbContext, ConsensusTolerance, ErrorRatio, PostEditCheckBaseline, PostEditChecker,
    PostEditFailureKind, TreeReport,
};
use policy_engine::semantic_contract::snapshot::SemanticContractSnapshot;
use policy_engine::semantic_contract::SemanticContract;
use policy_engine::syntax::{nodes_of, tree_error_stats};

fn checker() -> PostEditChecker {
    PostEditChecker::new(true, 0, SemanticContract::new())
}

fn limits(
    kind: SemanticCompdbContextKind,
    certainty: Option<&PolicyCertainty>,
    edited: Option<&BTreeSet<usize>>,
) -> CheckLimits {
    let state = CertaintyFilterState::new();
    CheckLimits::for_file(kind, edited, certainty, &state, 0, state.identity_shift_tolerance())
}

fn exact() -> CompdbContext {
    CompdbContext { kind: SemanticCompdbContextKind::Exact, exact: true }
}

fn read(text: &str) -> (Result<TreeReport, String>, SemanticContractSnapshot) {
    let mut parser = tree_sitter::Parser::new();
    parser.set_language(&tree_sitter_cpp::LANGUAGE.into()).expect("cpp language");
    let tree = parser.parse(text, None).expect("parse tree");
    let stats = tree_error_stats(&tree);
    let scopes = nodes_of(&tree)
        .iter()
        .filter(|node| node.kind == "namespace_definition")
        .map(|node| SemanticScope {
            kind: SemanticScopeKind::Namespace,
            node: ScopeNode::NamespaceDefinition,
            start_line: node.start_row + 1,
            end_line: node.end_row + 1,
        })
        .collect();
    let context = SemanticFileContext { scopes, ..SemanticFileContext::default() };
    let report = TreeReport {
        has_error: tree.root_node().has_error(),
        ratio: ErrorRatio {
            units: stats.error_ratio(),
            shown: format!("{:.4}", stats.error_nodes as f64 / stats.total_nodes as f64),
        },
        error_lines: stats.error_lines,
    };
    (Ok(report), SemanticContract::new().snapshot(&context))
}

fn quiet() -> Option<Result<ClangReport, String>> {
    Some(Ok(ClangReport {
        error_count: 0,
        summary: ClangDiagnosticSummary { ignored: 0, note: 0, warning: 0, error: 0, fatal: 0 },
        entries: Vec::new(),
        error_lines: BTreeSet::new(),
    }))
}

fn high_cert() -> PolicyCertainty {
    PolicyCertainty {
        structural: 950_000_000,
        semantic: 950_000_000,
        coverage: 950_000_000,
        richness: 950_000_000,
        semantic_lower_ci: 0,
        edit_success_lower_ci: 0,
        stable_model_prob: 900_000_000,
        noisy_model_prob: 0,
        general_trust: 950_000_000,
        structural_trust: 950_000_000,
        observation_count: 0,
    }
}

#[test]
fn tree_error_ratio_regression_fails_and_collects_culprit_lines() {
    let (before_tree, before) = read("int main() { return 0; }\n");
    let (after_tree, after) = read("int main( { return 0; }\n");
    let baseline = checker().build_baseline(before_tree, quiet(), before);
    let result = checker().validate_with_baseline_for_edits(
        exact(),
        &limits(SemanticCompdbContextKind::Exact, None, None),
        &baseline,
        &after_tree,
        &quiet(),
        &after,
        None,
        "0.000",
    );
    assert!(!result.accepted);
    assert!(result
        .messages
        .iter()
        .any(|item| item.contains("tree-sitter error ratio increased")));
    assert!(!result.culprit_lines.is_empty());
}

#[test]
fn stable_edit_keeps_post_edit_check_accepted() {
    let (before_tree, before) = read("int main() { return 0; }\n");
    let (after_tree, after) = read("int main() { return 1; }\n");
    let baseline = checker().build_baseline(before_tree, quiet(), before);
    let result = checker().validate_with_baseline_for_edits(
        exact(),
        &limits(SemanticCompdbContextKind::Exact, None, None),
        &baseline,
        &after_tree,
        &quiet(),
        &after,
        None,
        "0.000",
    );
    assert!(result.accepted);
    assert!(result.culprit_lines.is_empty());
}

fn referred(stable_id: &str, references: usize) -> SemanticContractSnapshot {
    let context = SemanticFileContext {
        summary: SemanticSummary {
            declaration_count: 0,
            reference_count: 0,
            usr_backed_declaration_count: 1,
            semantic_signature: 0,
        },
        declarations: vec![SemanticDeclaration {
            stable_id: stable_id.to_string(),
            provenance: SemanticIdProvenance::Usr,
            name: "value".to_string(),
            kind: clang_sys::CXCursor_FunctionDecl,
            line: 1,
            usr: Some(stable_id.to_string()),
        }],
        references: (0..references)
            .map(|i| SemanticReference {
                stable_id: stable_id.to_string(),
                decl_kind: clang_sys::CXCursor_FunctionDecl,
                line: i + 2,
            })
            .collect(),
        ..SemanticFileContext::default()
    };
    SemanticContract::new().snapshot(&context)
}

#[test]
fn semantic_reference_integrity_regression_is_reported() {
    let baseline = PostEditCheckBaseline {
        before_tree_error: Some(false),
        before_tree_error_ratio: Some(ErrorRatio { units: 0, shown: "0.0000".to_string() }),
        before_clang_error_count: Some(0),
        before_clang_fatal_count: Some(0),
        before_clang_summary: Some(ClangDiagnosticSummary {
            ignored: 0,
            note: 0,
            warning: 0,
            error: 0,
            fatal: 0,
        }),
        before_clang_diagnostic_entries: Some(Vec::new()),
        before_clang_error_lines: Some(BTreeSet::new()),
        before_semantic_snapshot: Some(referred("usr:c:@F@value#", 12)),
        before_semantic_ready: true,
        semantic_readiness_note: None,
        before_tree_unavailable: false,
        before_clang_unavailable: false,
        warnings: Vec::new(),
    };
    let (tree, _) = read("int main() { return 0; }\n");
    let after = referred("usr:c:@F@value#", 0);
    let result = checker().validate_with_baseline_for_edits(
        exact(),
        &limits(SemanticCompdbContextKind::Exact, Some(&high_cert()), None),
        &baseline,
        &tree,
        &quiet(),
        &after,
        None,
        "0.000",
    );
    assert!(!result.accepted);
    assert!(result
        .failure_kinds
        .contains(PostEditFailureKind::SemanticReferenceIntegrityRegressed));
}

#[test]
fn semantic_scope_drift_is_reported() {
    let before = "namespace A {\nnamespace B {\nnamespace C {\nnamespace D {\nint value = 0;\n}\n}\n}\n}\n";
    let after = "int value = 0;\n";
    let (before_tree, before) = read(before);
    let (after_tree, after) = read(after);
    let baseline = checker().build_baseline(before_tree, quiet(), before);
    let result = checker().validate_with_baseline_for_edits(
        exact(),
        &limits(SemanticCompdbContextKind::Exact, Some(&high_cert()), None),
        &baseline,
        &after_tree,
        &quiet(),
        &after,
        None,
        "0.000",
    );
    assert!(!result.accepted);
    assert!(result
        .failure_kinds
        .contains(PostEditFailureKind::SemanticScopeDriftRegressed));
}

#[test]
fn semantic_integrity_checks_are_skipped_when_baseline_not_ready() {
    let baseline = PostEditCheckBaseline {
        before_semantic_snapshot: Some(referred("usr:c:@F@foo#", 3)),
        before_semantic_ready: false,
        semantic_readiness_note: Some("clang fatals 1 exceed 0".to_string()),
        ..PostEditCheckBaseline::default()
    };
    let (tree, after) = read("int main() { return 0; }\n");
    let result = checker().validate_with_baseline_for_edits(
        exact(),
        &limits(SemanticCompdbContextKind::Exact, None, None),
        &baseline,
        &tree,
        &quiet(),
        &after,
        None,
        "0.000",
    );
    assert!(!result
        .failure_kinds
        .contains(PostEditFailureKind::SemanticReferenceIntegrityRegressed));
    assert!(result
        .messages
        .iter()
        .any(|item| item.contains("semantic integrity checks skipped")));
}

#[test]
fn semantic_readiness_regression_is_reported() {
    let (before_tree, before) = read("int main() { return 0; }\n");
    let (after_tree, after) = read("#include \"missing.hpp\"\nint main() { return 0; }\n");
    let baseline = checker().build_baseline(before_tree, quiet(), before);
    assert!(baseline.semantic_ready());
    let result = checker().validate_with_baseline_for_edits(
        exact(),
        &limits(SemanticCompdbContextKind::Exact, Some(&high_cert()), None),
        &baseline,
        &after_tree,
        &quiet(),
        &after,
        None,
        "0.000",
    );
    assert!(!result
        .failure_kinds
        .contains(PostEditFailureKind::SemanticReadinessRegressed));
}

fn summary(warning: usize, error: usize, fatal: usize) -> ClangDiagnosticSummary {
    ClangDiagnosticSummary { ignored: 0, note: 0, warning, error, fatal }
}

#[test]
fn clang_diagnostic_weighting_prioritizes_severity() {
    let weights = CertaintyFilterState::new().diagnostic_weights();
    let empty = PostEditChecker::diagnostic_weighted_score(summary(0, 0, 0), weights);
    let warning = PostEditChecker::diagnostic_weighted_score(summary(1, 0, 0), weights);
    let error = PostEditChecker::diagnostic_weighted_score(summary(0, 1, 0), weights);
    let fatal = PostEditChecker::diagnostic_weighted_score(summary(0, 0, 1), weights);
    assert!(warning > empty);
    assert!(error > warning);
    assert!(fatal > error);
    assert_eq!(PostEditChecker::diagnostic_weighted_score(summary(2, 1, 1), weights), 26);
    assert_eq!(
        PostEditChecker::diagnostic_summary_label(summary(2, 1, 0)),
        "fatal=0 error=1 warning=2 note=0"
    );
}

#[test]
fn clang_diagnostic_delta_lines_only_reports_new_entries() {
    let before = vec![ClangDiagnosticEntry {
        line: 4,
        column: 1,
        severity: ClangDiagnosticSeverity::Warning,
    }];
    let after = vec![
        ClangDiagnosticEntry { line: 4, column: 1, severity: ClangDiagnosticSeverity::Warning },
        ClangDiagnosticEntry { line: 8, column: 1, severity: ClangDiagnosticSeverity::Error },
    ];
    let delta = PostEditChecker::diagnostic_delta_lines(before.as_slice(), after.as_slice());
    assert!(delta.contains(&8));
    assert!(!delta.contains(&4));
}

#[test]
fn consensus_nonlocal_diagnostic_delta_is_tolerated() {
    let edited = BTreeSet::from([20usize, 21usize, 22usize]);
    let deltas = BTreeSet::from([320usize, 321usize]);
    let kind = SemanticCompdbContextKind::HeaderConsensus;
    assert!(PostEditChecker::should_tolerate_nonlocal_diagnostic_delta_for_context(
        CompdbContext { kind, exact: false },
        Some(&edited),
        &deltas,
        1,
        8,
        PostEditChecker::consensus_tolerance(kind, DEFAULT_TRUST).expect("guessed options"),
    ));
}

#[test]
fn exact_compdb_diagnostic_delta_is_not_tolerated() {
    let edited = BTreeSet::from([20usize, 21usize, 22usize]);
    let deltas = BTreeSet::from([320usize, 321usize]);
    let kind = SemanticCompdbContextKind::SourceConsensus;
    assert!(!PostEditChecker::should_tolerate_nonlocal_diagnostic_delta_for_context(
        CompdbContext { kind, exact: true },
        Some(&edited),
        &deltas,
        1,
        8,
        PostEditChecker::consensus_tolerance(kind, DEFAULT_TRUST).expect("guessed options"),
    ));
}

#[test]
fn nonexact_consensus_clang_validation_is_skipped() {
    let skips = |kind, exact| {
        PostEditChecker::should_skip_nonexact_consensus_clang_validation_for_context(
            CompdbContext { kind, exact },
        )
    };
    assert!(skips(SemanticCompdbContextKind::HeaderConsensus, false));
    assert!(skips(SemanticCompdbContextKind::SourceConsensus, false));
    assert!(!skips(SemanticCompdbContextKind::PairedSourceHeuristic, false));
    assert!(!skips(SemanticCompdbContextKind::Exact, true));
    assert!(!skips(SemanticCompdbContextKind::Absent, false));
}

#[test]
fn semantic_transition_tolerances_respect_context_fidelity_order() {
    let lines = BTreeSet::from([1usize, 2, 3, 4, 5, 6, 7, 8]);
    let tolerances = |kind| {
        PostEditChecker::semantic_transition_tolerances_for_context(kind, Some(&lines), None)
    };
    let exact = tolerances(SemanticCompdbContextKind::Exact);
    let paired = tolerances(SemanticCompdbContextKind::PairedSourceHeuristic);
    let source = tolerances(SemanticCompdbContextKind::SourceConsensus);
    let header = tolerances(SemanticCompdbContextKind::HeaderConsensus);
    assert!(
        paired.0 > exact.0 && paired.1 > exact.1,
        "paired ({},{}) should exceed exact ({},{})",
        paired.0,
        paired.1,
        exact.0,
        exact.1
    );
    assert!(paired.0 > source.0, "paired ref ({}) should exceed source ref ({})", paired.0, source.0);
    assert!(header.0 >= source.0, "header ref ({}) should be >= source ref ({})", header.0, source.0);
    assert_eq!(paired, (28, 7));
    assert_eq!(
        PostEditChecker::semantic_transition_tolerances_for_context(
            SemanticCompdbContextKind::PairedSourceHeuristic,
            None,
            None
        ),
        (4, 3)
    );
}

#[test]
fn a_missing_parser_fails_where_it_must() {
    let (tree, snapshot) = read("int a;\n");
    let baseline = checker().build_baseline(tree, quiet(), snapshot);
    let (_, after) = read("int a;\n");
    let result = checker().validate_with_baseline_for_edits(
        exact(),
        &limits(SemanticCompdbContextKind::Exact, None, None),
        &baseline,
        &Err("no grammar".to_string()),
        &quiet(),
        &after,
        None,
        "0.000",
    );
    assert!(!result.accepted);
    assert!(!result.failure_kinds.is_empty());
}

#[test]
fn structure_alone_can_be_checked() {
    let (tree, snapshot) = read("int a;\n");
    let baseline = checker().build_baseline(tree, quiet(), snapshot);
    let (same, _) = read("int b;\n");
    assert!(checker().validate_structural_only(0, &baseline, &same).accepted);
    let (broken, _) = read("int (;\n");
    let result = checker().validate_structural_only(0, &baseline, &broken);
    assert!(!result.accepted);
    assert!(result.failure_kinds.render().starts_with('{'));
}

#[test]
fn an_unchanged_text_needs_no_check() {
    let broken = "int main( { return 0; }\n";
    let sound = "int main() { return 0; }\n";
    let check = |before: &str, after: &str| {
        let (before_tree, before_snapshot) = read(sound);
        let (after_tree, after_snapshot) = read(broken);
        checker().validate_for_edits(
            before,
            after,
            exact(),
            &limits(SemanticCompdbContextKind::Exact, None, None),
            before_tree,
            quiet(),
            before_snapshot,
            &after_tree,
            &quiet(),
            &after_snapshot,
            None,
            "0.000",
        )
    };
    assert!(check(broken, broken).accepted);
    assert!(check(broken, broken).messages.is_empty());
    assert!(!check(sound, broken).accepted);
}

#[test]
fn limits_follow_how_the_options_were_found() {
    let exact = limits(SemanticCompdbContextKind::Exact, None, None);
    assert_eq!((exact.relaxed_severe_limit, exact.relaxed_weight_limit), (0, 0));
    assert_eq!((exact.consensus.delta_limit, exact.consensus.radius), (0, 0));
    let paired = limits(SemanticCompdbContextKind::PairedSourceHeuristic, None, None);
    assert_eq!((paired.relaxed_severe_limit, paired.relaxed_weight_limit), (8, 48));
    for kind in
        [SemanticCompdbContextKind::HeaderConsensus, SemanticCompdbContextKind::SourceConsensus]
    {
        let guessed = limits(kind, None, None);
        assert_eq!((guessed.relaxed_severe_limit, guessed.relaxed_weight_limit), (1, 10));
    }
    assert!(exact.weights.note <= exact.weights.warning);
    assert!(exact.weights.error <= exact.weights.fatal);
}
