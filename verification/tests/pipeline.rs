use std::collections::BTreeSet;

use policy_engine::catalog::{policy_catalog, PolicyCapabilities};
use policy_engine::certainty_filter::CertaintyFilterState;
use policy_engine::compdb::SemanticCompdbContextKind;
use policy_engine::conflict_solver::GlobalConflictSolver;
use policy_engine::edit_candidate::{CandidateRiskTier, PolicyEditCandidate};
use policy_engine::file_context::{
    ScopeNode, SemanticDeclaration, SemanticFileContext, SemanticIdProvenance, SemanticReference,
    SemanticRegion, SemanticRegionKind, SemanticScope, SemanticScopeKind, SemanticSummary,
};
use policy_engine::model::{Edit, PolicyResult, Violation};
use policy_engine::pipeline::edit_utils::{
    apply_edits_lenient, apply_synthesized_edits, normalize_edit_coverage, stabilize_output_text,
    synthesize_line_edits,
};
use policy_engine::fingerprints::Fingerprints;
use policy_engine::pipeline::impact::{hash_symbols, normalize_impact_ranges};
use policy_engine::pipeline::semantic_impact::{
    apply_semantic_mode, build_convergence_profiles, build_convergence_signal,
    semantic_error_lines, ConvergenceSettings, ConvergenceSignalInput, LineEvidence,
    PolicyConvergence,
};
use policy_engine::pipeline::suppression::{apply_scope_filter, suppress_lines_impl};
use policy_engine::post_check::CompdbContext;
use policy_engine::run_options::RetryScopeStage;
use policy_engine::semantic_contract::{PolicyGuidanceMode, SemanticInvariantClause};
use policy_engine::small_lists::RangeList;
use policy_engine::zone::PolicyZone;

fn edit(policy: &str, line: usize, before: &str, after: &str) -> Edit {
    Edit {
        policy: policy.to_string(),
        line,
        before: before.to_string(),
        after: after.to_string(),
    }
}

fn changed(text: &str, edits: Vec<Edit>) -> PolicyResult {
    PolicyResult {
        text: text.to_string(),
        violations: Vec::new(),
        edits,
        warnings: Vec::new(),
        changed: true,
    }
}

fn exact() -> CompdbContext {
    CompdbContext { kind: SemanticCompdbContextKind::Exact, exact: true }
}

fn safe_line() -> LineEvidence {
    LineEvidence {
        safe_edit: true,
        safe_global: true,
        has_diagnostic_error: false,
        in_macro_region: false,
        declaration_count: 0,
        reference_count: 0,
    }
}

#[test]
fn guideline_drops_unsafe() {
    let before = "line1\nline2\nline3\n";
    let result = changed(
        "line1\nunsafe\nsafe\n",
        vec![edit("sample", 2, "line2", "unsafe"), edit("sample", 3, "line3", "safe")],
    );
    let capability = policy_catalog().capabilities("sample");
    // Line 2 is a conditional of the preprocessor.
    let evidence = [
        LineEvidence {
            safe_edit: false,
            safe_global: true,
            has_diagnostic_error: false,
            in_macro_region: true,
            declaration_count: 0,
            reference_count: 0,
        },
        safe_line(),
    ];
    let adjusted = apply_semantic_mode(
        before,
        result,
        Some(&evidence),
        &capability,
        exact(),
        "sample",
        PolicyGuidanceMode::SoftGuideline,
    );
    assert_eq!(adjusted.edits.len(), 1);
    assert_eq!(adjusted.edits[0].line, 3);
    assert_eq!(adjusted.text, "line1\nline2\nsafe\n");
    assert!(adjusted
        .warnings
        .iter()
        .any(|warning| warning.contains("semantic guideline dropped")));
}

#[test]
fn invariant_blocks_unsafe() {
    let before = "line1\nline2\nline3\nline4\n";
    let result =
        changed("line1\nline2\nline3\nunsafe\n", vec![edit("sample", 4, "line4", "unsafe")]);
    let capability = policy_catalog().capabilities("sample");
    // Line 4 holds a declaration and an error.
    let evidence = [LineEvidence {
        safe_edit: false,
        safe_global: false,
        has_diagnostic_error: true,
        in_macro_region: false,
        declaration_count: 1,
        reference_count: 0,
    }];
    let adjusted = apply_semantic_mode(
        before,
        result,
        Some(&evidence),
        &capability,
        exact(),
        "sample",
        PolicyGuidanceMode::HardInvariant,
    );
    assert_eq!(adjusted.text, before);
    assert!(adjusted.edits.is_empty());
    assert!(adjusted
        .violations
        .iter()
        .any(|violation| violation.policy == "semantic_contract"));
}

#[test]
fn guideline_allows_structural() {
    let before = "line1\n#include <a>\nline3\n";
    let result = changed(
        "line1\n#include <b>\nline3\n",
        vec![edit("include_order", 2, "#include <a>", "#include <b>")],
    );
    let capability = policy_catalog().capabilities("include_order");
    let evidence = [LineEvidence { safe_edit: false, in_macro_region: true, ..safe_line() }];
    let adjusted = apply_semantic_mode(
        before,
        result,
        Some(&evidence),
        &capability,
        exact(),
        "include_order",
        PolicyGuidanceMode::SoftGuideline,
    );
    assert_eq!(adjusted.edits.len(), 1);
    assert_eq!(adjusted.text, "line1\n#include <b>\nline3\n");
    assert!(!adjusted
        .warnings
        .iter()
        .any(|warning| warning.contains("semantic guideline dropped")));
}

fn shaped(policy: &str, semantic_rewrite: bool, structural_safe: bool) -> PolicyCapabilities {
    PolicyCapabilities {
        semantic_rewrite,
        structural_safe,
        whitespace_safe: false,
        ..policy_catalog().capabilities(policy)
    }
}

#[test]
fn scope_drops_outside() {
    let before = "l1\nl2\nl3\nl4\n";
    let result = changed(
        "l1\nx2\nx3\nx4\n",
        vec![edit("sample", 2, "l2", "x2"), edit("sample", 4, "l4", "x4")],
    );
    let allowed = BTreeSet::from([4usize]);
    let filtered = apply_scope_filter(
        before,
        result,
        Some(&allowed),
        "sample",
        RetryScopeStage::LineLocal,
        &shaped("sample", false, true),
    );
    assert_eq!(filtered.edits.len(), 1);
    assert_eq!(filtered.edits[0].line, 4);
    assert_eq!(filtered.text, "l1\nl2\nx3\nx4\n");
    assert!(filtered
        .warnings
        .iter()
        .any(|warning| warning.contains("retry_scope(line_local)")));
}

#[test]
fn scope_reverts_rewrite() {
    let before = "a\nb\nc\n";
    let result = changed(
        "x\ny\nc\n",
        vec![
            edit("naming_conventions", 1, "a", "x"),
            edit("naming_conventions", 2, "b", "y"),
        ],
    );
    let allowed = BTreeSet::from([1usize]);
    let filtered = apply_scope_filter(
        before,
        result,
        Some(&allowed),
        "naming_conventions",
        RetryScopeStage::LineLocal,
        &shaped("naming_conventions", true, false),
    );
    assert_eq!(filtered.text, before);
    assert!(filtered.edits.is_empty());
    assert!(filtered
        .warnings
        .iter()
        .any(|warning| warning.contains("reverted semantic rewrite")));
}

#[test]
fn scope_skips_saturated() {
    let before = "l1\nl2\nl3\n";
    let mut result = changed("x1\nx2\nx3\nx4\nx5\nx6\n", Vec::new());
    for line in 1..=90usize {
        result.edits.push(edit("class_layout", line, &format!("b{line}"), &format!("a{line}")));
    }
    let allowed = BTreeSet::from([1usize]);
    let filtered = apply_scope_filter(
        before,
        result,
        Some(&allowed),
        "class_layout",
        RetryScopeStage::LineLocal,
        &shaped("class_layout", false, true),
    );
    assert!(
        filtered
            .warnings
            .iter()
            .any(|warning| warning.contains("dropped") && warning.contains("out-of-scope")),
        "scope filter should drop out-of-scope lines without full revert"
    );
}

#[test]
fn wide_requires_compdb() {
    let catalog = policy_catalog();
    assert!(catalog.behavior("clang_format").needs_exact_compdb);
    assert!(catalog.behavior("include_order").needs_exact_compdb);
    assert!(catalog.behavior("class_layout").needs_exact_compdb);
    assert!(catalog.behavior("compact_declarations").needs_exact_compdb);
}

#[test]
fn profile_reads_radius() {
    let profiles = build_convergence_profiles(&[PolicyConvergence {
        policy: "policy_a".to_string(),
        settings: Some(ConvergenceSettings {
            domain: Some("layout".to_string()),
            priority: Some(777),
            impact_radius: Some(3),
            priority_weight_bp: Some(650),
            semantic_priority_weight: None,
            risk_tier: None,
        }),
    }]);
    let named = profiles.iter().find(|p| p.policy == "policy_a").expect("profile");
    assert_eq!(named.profile.domain, "layout");
    assert_eq!(named.profile.priority, 777);
    assert_eq!(named.profile.impact_radius, 3);
    assert_eq!(named.profile.priority_weight_bp, 650);
}

fn summary_of(context: &SemanticFileContext) -> SemanticSummary {
    SemanticSummary {
        declaration_count: context.declarations.len(),
        reference_count: context.references.len(),
        usr_backed_declaration_count: context
            .declarations
            .iter()
            .filter(|d| d.usr.is_some())
            .count(),
        semantic_signature: 0,
    }
}

fn signal_for<'a>(
    edits: &'a [Edit],
    semantic: &'a SemanticFileContext,
    failures: &'a [SemanticInvariantClause],
) -> ConvergenceSignalInput<'a> {
    ConvergenceSignalInput {
        edits,
        semantic: Some(semantic),
        summary: summary_of(semantic),
        previous_contract_failures: failures,
        capability: policy_catalog().capabilities("compact_declarations"),
        cluster_radius_cap: None,
        base_rating: CertaintyFilterState::new().semantic_confidence_bp_base(),
    }
}

#[test]
fn signal_increases_radius() {
    let edits: Vec<Edit> = (0..80).map(|line| edit("p", line + 1, "a", "b")).collect();
    let semantic = SemanticFileContext {
        clang_success: true,
        tree_has_error: false,
        references: (0..2_100)
            .map(|_| SemanticReference {
                stable_id: "usr:test".to_string(),
                decl_kind: clang_sys::CXCursor_VarDecl,
                line: 1,
            })
            .collect(),
        ..SemanticFileContext::default()
    };
    let signal = build_convergence_signal(&signal_for(&edits, &semantic, &[]));
    assert!(signal.semantic_confidence_bp >= 700);
    assert!(signal.impact_radius >= 2);
}

fn valued() -> SemanticFileContext {
    SemanticFileContext {
        clang_success: true,
        tree_has_error: false,
        declarations: vec![SemanticDeclaration {
            stable_id: "usr:c:@F@value#".to_string(),
            provenance: SemanticIdProvenance::Usr,
            name: "value".to_string(),
            kind: clang_sys::CXCursor_VarDecl,
            line: 10,
            usr: Some("c:@F@value#".to_string()),
        }],
        references: vec![SemanticReference {
            stable_id: "usr:c:@F@value#".to_string(),
            decl_kind: clang_sys::CXCursor_VarDecl,
            line: 12,
        }],
        scopes: vec![SemanticScope {
            kind: SemanticScopeKind::Function,
            node: ScopeNode::FunctionDefinition,
            start_line: 8,
            end_line: 20,
        }],
        ..SemanticFileContext::default()
    }
}

#[test]
fn signal_builds_maps() {
    let edits = vec![
        edit("p", 10, "int value=1;", "int value = 1;"),
        edit("p", 12, "value++;", "value ++;"),
    ];
    let semantic = valued();
    let signal = build_convergence_signal(&signal_for(&edits, &semantic, &[]));

    let line10_ranges = signal.impact_ranges.get(&10).expect("line 10 ranges").to_vec();
    assert!(line10_ranges.iter().any(|(start, end)| *start <= 10 && *end >= 12));

    let line12_ranges = signal.impact_ranges.get(&12).expect("line 12 ranges").to_vec();
    assert!(line12_ranges.iter().any(|(start, end)| *start <= 10 && *end >= 12));

    let ids_line10 = signal.symbol_ids.get(&10).expect("line 10 symbol ids").to_vec();
    let ids_line12 = signal.symbol_ids.get(&12).expect("line 12 symbol ids").to_vec();
    assert!(ids_line10.iter().any(|id| ids_line12.contains(id)));
}

#[test]
fn symbols_hash_by_their_identity() {
    let mut semantic = valued();
    semantic.references.push(SemanticReference {
        stable_id: "usr:other".to_string(),
        decl_kind: clang_sys::CXCursor_VarDecl,
        line: 13,
    });
    let hashes = hash_symbols(&semantic);
    assert_eq!(hashes.declarations.len(), 1);
    assert_eq!(hashes.declarations[0], hashes.references[0]);
    assert_ne!(hashes.references[0], hashes.references[1]);
}

#[test]
fn a_text_keeps_its_number() {
    let (table, first) = Fingerprints::new().number("usr:a");
    let (table, other) = table.number("usr:b");
    let (_, again) = table.number("usr:a");
    assert_eq!(first, again);
    assert_ne!(first, other);
}

#[test]
fn signal_penalizes_failures() {
    let edits = vec![edit("p", 10, "a", "b")];
    let semantic = SemanticFileContext {
        clang_success: true,
        tree_has_error: false,
        ..SemanticFileContext::default()
    };
    let base = build_convergence_signal(&signal_for(&edits, &semantic, &[]));
    let failures = [
        SemanticInvariantClause::EditSafety,
        SemanticInvariantClause::DeclarationReferenceIntegrity,
    ];
    let penalized = build_convergence_signal(&signal_for(&edits, &semantic, &failures));
    assert!(penalized.semantic_confidence_bp < base.semantic_confidence_bp);
    assert!(penalized.impact_radius >= base.impact_radius);
}

#[test]
fn suppression_keeps_local() {
    let before = "int x = 0;\n\nint y = 1;\n";
    let mut result = changed(
        "int x = 0;\n    \nint y = 1;\n",
        vec![edit("compact_declarations", 2, "", "    ")],
    );
    result.violations.push(Violation {
        policy: "compact_declarations".to_string(),
        message: "blank line spacing".to_string(),
        line: 2,
        column: Some(1),
    });
    let suppressed = suppress_lines_impl(before, result, &BTreeSet::from([3usize]));
    assert_eq!(suppressed.text, "int x = 0;\n    \nint y = 1;\n");
    assert_eq!(suppressed.edits.len(), 1);
}

#[test]
fn suppression_handles_nonlocal() {
    let before = "A\nB\nC\n";
    let result = changed("A\nB\nX\nC\n", vec![edit("class_layout", 3, "C", "X")]);
    let suppressed = suppress_lines_impl(before, result, &BTreeSet::from([3usize]));
    assert_eq!(suppressed.text, "A\nB\nC\n");
    assert!(suppressed
        .warnings
        .iter()
        .any(|warning| warning.contains("best-effort non-local rollback")));
}

fn wide_batch() -> (String, PolicyResult) {
    let before_lines: Vec<String> = (1..=70).map(|n| format!("{n}")).collect();
    let before = format!("{}\n", before_lines.join("\n"));
    let mut after_lines = before_lines.clone();
    after_lines.insert(2, "X".to_string());
    let after_text = format!("{}\n", after_lines.join("\n"));
    let edits = (2usize..=70)
        .map(|line| edit("clang_format", line, &format!("{line}"), &format!("{line} ")))
        .collect();
    (before, changed(&after_text, edits))
}

#[test]
fn suppression_no_revert() {
    let (before, result) = wide_batch();
    let suppressed = suppress_lines_impl(before.as_str(), result, &BTreeSet::from([3usize]));
    assert!(
        !suppressed.warnings.iter().any(|w| w.contains("wide non-local batch")),
        "no threshold-based wide batch revert should occur"
    );
}

#[test]
fn suppression_skips_escalation() {
    let (before, result) = wide_batch();
    let suppressed = suppress_lines_impl(before.as_str(), result, &BTreeSet::from([3usize]));
    assert!(!suppressed
        .warnings
        .iter()
        .any(|warning| warning.contains("wide non-local batch")));
}

#[test]
fn prefers_lower_risk() {
    let existing = PolicyEditCandidate {
        policy: "naming_conventions".to_string(),
        line: 42,
        confidence: 860_000_000,
        risk_tier: CandidateRiskTier::High,
        impact_radius: 3,
        symbol_footprint: vec![11u64],
        range_footprint: vec![(40usize, 44usize)],
        hard_constraints_touched: SemanticInvariantClause::EditSafety.bit(),
        zone: PolicyZone::Code,
        after_fingerprint: 1,
        style_gain: 1_000_000_000,
    };
    let incoming = PolicyEditCandidate {
        policy: "compact_declarations".to_string(),
        line: 42,
        confidence: 840_000_000,
        risk_tier: CandidateRiskTier::Low,
        impact_radius: 1,
        symbol_footprint: vec![11u64],
        range_footprint: vec![(42usize, 42usize)],
        hard_constraints_touched: 0,
        zone: PolicyZone::Code,
        after_fingerprint: 2,
        style_gain: 1_200_000_000,
    };
    let result = GlobalConflictSolver::solve(
        &[incoming],
        &[existing],
        RetryScopeStage::LineLocal,
        &CertaintyFilterState::new().solver_tuning(),
    );
    assert!(result.accepted.is_empty());
    assert!(result.dropped_lines.contains(&42));
}

#[test]
fn stabilize_reverts_untracked() {
    let mut warnings = Vec::new();
    let output =
        stabilize_output_text("int value = 0;\n", "int m_value = 0;\n", &[], &mut warnings);
    assert_eq!(output, "int value = 0;\n");
    assert!(warnings.iter().any(|item| item.contains("reverted untracked text delta")));
}

#[test]
fn stabilize_keeps_delta() {
    let mut warnings = Vec::new();
    let edits = vec![edit("compact_declarations", 1, "int value = 0;", "int value= 0;")];
    let output = stabilize_output_text(
        "int value = 0;\n",
        "int value= 0;\n",
        edits.as_slice(),
        &mut warnings,
    );
    assert_eq!(output, "int value= 0;\n");
    assert!(warnings.is_empty());
}

#[test]
fn coverage_expands_block() {
    let result = changed(
        "line1\nline2 changed\nline3 changed\n",
        vec![edit("pragma_once_spacing", 2, "block", "block_changed")],
    );
    let normalized =
        normalize_edit_coverage("pragma_once_spacing", "line1\nline2\nline3\n", result);
    assert_eq!(normalized.edits.len(), 2);
    assert!(normalized.warnings.iter().any(|item| {
        item.contains("normalized edit coverage") && item.contains("pragma_once_spacing")
    }));
}

#[test]
fn coverage_clears_stale() {
    let result =
        changed("line1\nline2\n", vec![edit("include_order", 1, "line1", "line1 changed")]);
    let normalized = normalize_edit_coverage("include_order", "line1\nline2\n", result);
    assert!(normalized.edits.is_empty());
    assert!(normalized
        .warnings
        .iter()
        .any(|item| item.contains("cleared stale edit records")));
}

#[test]
fn coverage_keeps_multiline() {
    let result = changed(
        "line1\ncall(\n    first,\n    second\n);\nline3\n",
        vec![
            edit("class_layout", 2, "call(first, second);\n", "call(\n"),
            edit("class_layout", 3, "", "    first,\n"),
            edit("class_layout", 4, "", "    second\n"),
            edit("class_layout", 5, "", ");\n"),
        ],
    );
    let normalized = normalize_edit_coverage(
        "class_layout",
        "line1\ncall(first, second);\nline3\n",
        result,
    );
    assert_eq!(normalized.edits.len(), 4);
    assert!(normalized
        .warnings
        .iter()
        .all(|item| !item.contains("normalized edit coverage")));
}

#[test]
fn synthesized_edits_apply() {
    let before = "a\nb\nc\n";
    let after = "a\nx\nc\n";
    let edits = synthesize_line_edits(before, after, "p");
    assert_eq!(edits.len(), 1);
    assert_eq!(apply_synthesized_edits(before, &edits), Some(after.to_string()));
    assert_eq!(apply_edits_lenient(before, &edits), after);
    let wrong = vec![edit("p", 2, "not there\n", "x\n")];
    assert_eq!(apply_synthesized_edits(before, &wrong), None);
}

#[test]
fn ranges_are_merged_in_order() {
    let mut list = RangeList::of(&[(9, 12), (1, 3), (3, 5), (20, 20), (9, 12)]);
    normalize_impact_ranges(&mut list);
    let ranges = list.to_vec();
    for pair in ranges.windows(2) {
        assert!(pair[0].1 < pair[1].0);
    }
    for line in [1, 3, 5, 9, 12, 20] {
        assert!(ranges.iter().any(|(start, end)| *start <= line && line <= *end));
    }
    assert!(!ranges.iter().any(|(start, end)| *start <= 15 && 15 <= *end));
}

#[test]
fn error_regions_cover_their_lines() {
    let regions = [
        SemanticRegion {
            kind: SemanticRegionKind::Diagnostic,
            has_diagnostic_error: true,
            start_line: 4,
            end_line: 6,
        },
        SemanticRegion {
            kind: SemanticRegionKind::Diagnostic,
            has_diagnostic_error: false,
            start_line: 9,
            end_line: 9,
        },
    ];
    let lines = semantic_error_lines(&regions);
    assert!(lines.contains(&4) && lines.contains(&6));
    assert!(!lines.contains(&9));
}
