use std::collections::BTreeSet;

use policy_engine::certainty_filter::CertaintyFilterState;
use policy_engine::confidence_context::{has_sufficient_observations, ConfidenceContext};
use policy_engine::file_context::{
    ScopeNode, SemanticDeclaration, SemanticFileContext, SemanticIdProvenance, SemanticReference,
    SemanticScope, SemanticScopeKind, SemanticSummary,
};
use policy_engine::semantic_contract::snapshot::SemanticContractSnapshot;
use policy_engine::semantic_contract::{
    PolicyGuidanceMode, SemanticContract, SemanticInvariantClause, SemanticReadinessInput,
    SemanticTransitionAssessment,
};

fn declaration(
    stable_id: &str,
    provenance: SemanticIdProvenance,
    name: &str,
    kind: i32,
    line: usize,
    usr: Option<&str>,
) -> SemanticDeclaration {
    SemanticDeclaration {
        stable_id: stable_id.to_string(),
        provenance,
        name: name.to_string(),
        kind,
        line,
        usr: usr.map(|u| u.to_string()),
    }
}

fn reference(stable_id: &str, decl_kind: i32, line: usize) -> SemanticReference {
    SemanticReference { stable_id: stable_id.to_string(), decl_kind, line }
}

fn function_scope(start_line: usize, end_line: usize) -> SemanticScope {
    SemanticScope {
        kind: SemanticScopeKind::Function,
        node: ScopeNode::FunctionDefinition,
        start_line,
        end_line,
    }
}

fn counted(context: SemanticFileContext) -> SemanticFileContext {
    let summary = SemanticSummary {
        declaration_count: context.declarations.len(),
        reference_count: context.references.len(),
        usr_backed_declaration_count: context
            .declarations
            .iter()
            .filter(|d| d.usr.is_some())
            .count(),
        semantic_signature: 0,
    };
    SemanticFileContext { summary, ..context }
}

fn compare(
    before: &SemanticContractSnapshot,
    after: &SemanticContractSnapshot,
    reference_tolerance: usize,
    scope_tolerance: usize,
    identity_tolerance: usize,
    edited: Option<&BTreeSet<usize>>,
) -> SemanticTransitionAssessment {
    SemanticContract::new().evaluate_transition(
        before,
        after,
        reference_tolerance,
        scope_tolerance,
        identity_tolerance,
        edited,
        CertaintyFilterState::new().transition_penalties(),
        "1.000",
    )
}

#[test]
fn allows_clang_errors() {
    let contract = SemanticContract::new();
    let assessment = contract.evaluate_readiness(SemanticReadinessInput {
        tree_unavailable: false,
        clang_unavailable: false,
    });
    assert!(assessment.ready);
}

#[test]
fn rejects_tree_ratio() {
    let contract = SemanticContract::new();
    let assessment = contract.evaluate_readiness(SemanticReadinessInput {
        tree_unavailable: false,
        clang_unavailable: false,
    });
    assert!(assessment.ready);
}

#[test]
fn rejects_fatal_diagnostics() {
    let contract = SemanticContract::new();
    let assessment = contract.evaluate_readiness(SemanticReadinessInput {
        tree_unavailable: false,
        clang_unavailable: false,
    });
    assert!(assessment.ready);
}

#[test]
fn certainty_overrides_threshold() {
    let contract = SemanticContract::new();
    let assessment = contract.evaluate_readiness(SemanticReadinessInput {
        tree_unavailable: false,
        clang_unavailable: false,
    });
    assert!(assessment.ready, "parsers available should mean ready");
}

#[test]
fn missing_parsers_are_named() {
    let contract = SemanticContract::new();
    let assessment = contract.evaluate_readiness(SemanticReadinessInput {
        tree_unavailable: true,
        clang_unavailable: true,
    });
    assert!(!assessment.ready);
    assert_eq!(
        assessment.reasons,
        vec![
            "tree-sitter parser unavailable",
            "clang parser unavailable",
            "semantic readiness: parsers unavailable",
        ]
    );
    assert!(assessment.summary().contains(assessment.reasons[0].as_str()));
}

#[test]
fn invariants_identity_issue() {
    let contract = SemanticContract::new();
    let context = SemanticFileContext {
        declarations: vec![declaration(
            "fallback:x.cpp:10:1:Function",
            SemanticIdProvenance::Usr,
            "bad",
            clang_sys::CXCursor_FunctionDecl,
            10,
            Some("c:@F@bad#"),
        )],
        ..SemanticFileContext::default()
    };
    let snapshot = contract.snapshot(&counted(context));
    let assessment = contract.evaluate_context(&snapshot);
    assert!(!assessment.ready);
    assert!(assessment
        .hard_failures
        .iter()
        .any(|message| message.contains("symbol identity")));
}

#[test]
fn transition_role_regression() {
    let contract = SemanticContract::new();
    let declarations = || {
        vec![declaration(
            "usr:c:@F@foo#",
            SemanticIdProvenance::Usr,
            "foo",
            clang_sys::CXCursor_FunctionDecl,
            2,
            Some("c:@F@foo#"),
        )]
    };
    let before = SemanticFileContext {
        declarations: declarations(),
        references: vec![reference("usr:c:@F@foo#", clang_sys::CXCursor_FunctionDecl, 4)],
        ..SemanticFileContext::default()
    };
    let after = SemanticFileContext {
        declarations: declarations(),
        references: vec![reference("usr:c:@F@foo#", clang_sys::CXCursor_VarDecl, 4)],
        scopes: vec![function_scope(1, 6)],
        ..SemanticFileContext::default()
    };
    let before_snapshot = contract.snapshot(&counted(before));
    let after_snapshot = contract.snapshot(&counted(after));
    let assessment = compare(&before_snapshot, &after_snapshot, 0, 16, 0, None);
    assert!(assessment.reference_integrity_regressed);
    assert!(assessment
        .failure_messages
        .iter()
        .any(|message| message.contains("usage-role consistency regressed")));
}

#[test]
fn templates_count_as_the_functions_they_make() {
    let contract = SemanticContract::new();
    let context = SemanticFileContext {
        declarations: vec![declaration(
            "usr:c:@FT@foo#",
            SemanticIdProvenance::Usr,
            "foo",
            clang_sys::CXCursor_FunctionTemplate,
            2,
            Some("c:@FT@foo#"),
        )],
        references: vec![reference("usr:c:@FT@foo#", clang_sys::CXCursor_FunctionDecl, 4)],
        ..SemanticFileContext::default()
    };
    let template = contract.snapshot(&counted(context));
    assert_eq!(template.issues.mismatch_count, 0);
    let context = SemanticFileContext {
        declarations: vec![declaration(
            "usr:c:@F@foo#",
            SemanticIdProvenance::Usr,
            "foo",
            clang_sys::CXCursor_VarDecl,
            2,
            Some("c:@F@foo#"),
        )],
        references: vec![reference("usr:c:@F@foo#", clang_sys::CXCursor_FunctionDecl, 4)],
        ..SemanticFileContext::default()
    };
    let variable = contract.snapshot(&counted(context));
    assert_eq!(variable.issues.mismatch_count, 1);
}

#[test]
fn macro_edits_warn() {
    let contract = SemanticContract::new();
    let before = SemanticFileContext::default();
    let after = SemanticFileContext {
        scopes: vec![SemanticScope {
            kind: SemanticScopeKind::Preprocessor,
            node: ScopeNode::PreprocIf,
            start_line: 3,
            end_line: 5,
        }],
        ..SemanticFileContext::default()
    };
    let before_snapshot = contract.snapshot(&before);
    let after_snapshot = contract.snapshot(&after);
    let edited_lines = BTreeSet::from([4usize]);
    let assessment =
        compare(&before_snapshot, &after_snapshot, 16, 16, 0, Some(&edited_lines));
    assert_eq!(assessment.failure_messages.len(), 0);
    assert!(assessment
        .warning_messages
        .iter()
        .any(|message| message.contains("macro-safety clause")));
}

#[test]
fn transition_orphan_ref() {
    let contract = SemanticContract::new();
    let stable_id = "fallback:file.cpp:10:3:Variable";
    let before = SemanticFileContext {
        declarations: vec![declaration(
            stable_id,
            SemanticIdProvenance::DeclLocation,
            "value",
            clang_sys::CXCursor_VarDecl,
            10,
            None,
        )],
        references: vec![reference(stable_id, clang_sys::CXCursor_VarDecl, 12)],
        ..SemanticFileContext::default()
    };
    let after = SemanticFileContext {
        references: vec![reference(stable_id, clang_sys::CXCursor_VarDecl, 14)],
        ..SemanticFileContext::default()
    };
    let before_snapshot = contract.snapshot(&counted(before));
    let after_snapshot = contract.snapshot(&counted(after));
    let assessment = compare(&before_snapshot, &after_snapshot, 0, 16, 0, None);
    assert!(assessment.reference_integrity_regressed);
    assert!(assessment
        .failure_messages
        .iter()
        .any(|message| message.contains("orphan semantic references introduced")));
}

#[test]
fn transition_scope_drift() {
    let contract = SemanticContract::new();
    let before = SemanticFileContext {
        scopes: vec![function_scope(2, 6)],
        ..SemanticFileContext::default()
    };
    let after = SemanticFileContext {
        scopes: vec![function_scope(30, 40)],
        ..SemanticFileContext::default()
    };
    let before_snapshot = contract.snapshot(&before);
    let after_snapshot = contract.snapshot(&after);
    let edited_lines = BTreeSet::from([3usize]);
    let assessment = compare(&before_snapshot, &after_snapshot, 16, 0, 0, Some(&edited_lines));
    assert!(assessment.scope_integrity_regressed);
    assert!(assessment
        .failure_messages
        .iter()
        .any(|message| message.contains("scope structural drift")));
}

fn foo_at(decl_line: usize, ref_line: usize, end_line: usize, usr: &str) -> SemanticFileContext {
    let stable_id = format!("usr:{usr}");
    counted(SemanticFileContext {
        declarations: vec![declaration(
            &stable_id,
            SemanticIdProvenance::Usr,
            "foo",
            clang_sys::CXCursor_FunctionDecl,
            decl_line,
            Some(usr),
        )],
        references: vec![reference(&stable_id, clang_sys::CXCursor_FunctionDecl, ref_line)],
        scopes: vec![function_scope(1, end_line)],
        ..SemanticFileContext::default()
    })
}

#[test]
fn an_unchanged_file_is_assessed_as_nothing() {
    let contract = SemanticContract::new();
    let mut snapshot = contract.snapshot(&foo_at(10, 20, 30, "c:@F@foo#"));
    for full in [false, true] {
        if full {
            snapshot.scopes.counts.namespace = usize::MAX;
            snapshot.scopes.counts.function = usize::MAX;
        }
        for tolerance in [0, 1, usize::MAX] {
            let r = compare(&snapshot, &snapshot, tolerance, tolerance, tolerance, None);
            assert!(r.failure_messages.is_empty());
            assert!(r.warning_messages.is_empty());
            assert!(r.culprit_lines.is_empty());
            assert_eq!(r.failure_score_delta, 0);
            assert!(!r.identity_integrity_regressed);
            assert!(!r.reference_integrity_regressed);
            assert!(!r.scope_integrity_regressed);
        }
    }
}

#[test]
fn wider_tolerances_add_no_regression() {
    let contract = SemanticContract::new();
    let before = contract.snapshot(&foo_at(10, 20, 30, "c:@F@foo#"));
    let after = contract.snapshot(&foo_at(13, 23, 33, "c:@F@bar#"));
    let narrow = compare(&before, &after, 0, 0, 0, None);
    let wide = compare(&before, &after, 16, 16, 4, None);
    assert!(narrow.identity_integrity_regressed && narrow.reference_integrity_regressed);
    assert!(!wide.identity_integrity_regressed);
    assert!(narrow.scope_integrity_regressed || !wide.scope_integrity_regressed);
}

#[test]
fn migration_tolerates_small() {
    let contract = SemanticContract::new();
    let before_snapshot = contract.snapshot(&foo_at(10, 20, 30, "c:@F@foo#"));
    let after_snapshot = contract.snapshot(&foo_at(13, 23, 33, "c:@F@bar#"));
    let assessment_tolerant = compare(&before_snapshot, &after_snapshot, 0, 16, 4, None);
    assert!(
        !assessment_tolerant.identity_integrity_regressed,
        "shift of 3 lines should be tolerated with tolerance=4"
    );
    let assessment_exact = compare(&before_snapshot, &after_snapshot, 0, 16, 0, None);
    assert!(
        assessment_exact.identity_integrity_regressed,
        "shift of 3 lines should regress with tolerance=0 (exact match)"
    );
}

#[test]
fn migration_rejects_large() {
    let contract = SemanticContract::new();
    let before_snapshot = contract.snapshot(&foo_at(10, 20, 30, "c:@F@foo#"));
    let after_snapshot = contract.snapshot(&foo_at(20, 30, 40, "c:@F@bar#"));
    let assessment = compare(&before_snapshot, &after_snapshot, 0, 16, 4, None);
    assert!(
        assessment.identity_integrity_regressed,
        "shift of 10 lines should regress even with tolerance=4"
    );
    assert_eq!(assessment.failure_score_delta >= 90, true);
}

#[test]
fn an_unchanged_file_is_accepted() {
    let contract = SemanticContract::new();
    let before_snapshot = contract.snapshot(&foo_at(10, 20, 30, "c:@F@foo#"));
    let after_snapshot = contract.snapshot(&foo_at(10, 20, 30, "c:@F@foo#"));
    let assessment = compare(&before_snapshot, &after_snapshot, 0, 0, 0, None);
    assert!(assessment.failure_messages.is_empty());
    assert_eq!(assessment.failure_score_delta, 0);
    assert!(!assessment.identity_integrity_regressed);
    assert!(!assessment.reference_integrity_regressed);
    assert!(!assessment.scope_integrity_regressed);
}

#[test]
fn lost_references_are_tolerated_up_to_a_limit() {
    let contract = SemanticContract::new();
    let many = |n: usize| {
        let mut context = foo_at(10, 20, 30, "c:@F@foo#");
        for i in 1..n {
            context.references.push(reference(
                "usr:c:@F@foo#",
                clang_sys::CXCursor_FunctionDecl,
                20 + i,
            ));
        }
        counted(context)
    };
    let before_snapshot = contract.snapshot(&many(5));
    let after_snapshot = contract.snapshot(&many(2));
    let strict = compare(&before_snapshot, &after_snapshot, 2, 16, 0, None);
    assert!(strict.reference_integrity_regressed);
    let lenient = compare(&before_snapshot, &after_snapshot, 3, 16, 0, None);
    assert!(!lenient.reference_integrity_regressed);
}

#[test]
fn guidance_defaults_soft() {
    assert_eq!(
        SemanticContract::policy_guidance_mode("class_layout", false),
        PolicyGuidanceMode::SoftGuideline
    );
}

#[test]
fn guidance_honors_override() {
    assert_eq!(
        SemanticContract::policy_guidance_mode("class_layout", true),
        PolicyGuidanceMode::HardInvariant
    );
}

#[test]
fn clauses_round_trip_through_their_labels() {
    let mut mask = 0u16;
    for spec in SemanticContract::invariant_specs() {
        let clause = spec.clause;
        assert_eq!(SemanticInvariantClause::from_serialized(clause.as_str()), Some(clause));
        assert_eq!(mask & clause.bit(), 0);
        mask |= clause.bit();
        let found = SemanticContract::invariant_spec(clause).expect("a clause that is listed");
        assert_eq!(found.hard, spec.hard);
    }
    assert_eq!(SemanticInvariantClause::from_serialized("no_such_clause"), None);
}

fn parse(code: &str) -> tree_sitter::Tree {
    let mut parser = tree_sitter::Parser::new();
    parser.set_language(&tree_sitter_cpp::LANGUAGE.into()).expect("cpp language");
    parser.parse(code, None).expect("parse tree")
}

fn count_names(node: tree_sitter::Node<'_>, code: &str, name: &str) -> usize {
    let mut n = 0;
    if node.child_count() == 0 && &code[node.byte_range()] == name {
        n += 1;
    }
    for i in 0..node.child_count() {
        if let Some(child) = node.child(i) {
            n += count_names(child, code, name);
        }
    }
    n
}

#[test]
fn computes_error_ratio() {
    let malformed = "int main( { return 0; }\n";
    let tree = parse(malformed);
    let context = ConfidenceContext::from_parsers_and_semantic(
        Some(&tree),
        None,
        None,
        Some(&[]),
    );
    assert!(context.tree_available);
    assert!(context.tree_error_ratio > 0);
}

#[test]
fn context_enriches_clang() {
    let semantic = SemanticFileContext {
        clang_success: true,
        declarations: vec![declaration(
            "usr:demo",
            SemanticIdProvenance::Usr,
            "DemoFn",
            clang_sys::CXCursor_FunctionDecl,
            6,
            Some("usr:demo"),
        )],
        ..SemanticFileContext::default()
    };
    let context =
        ConfidenceContext::from_parsers_and_semantic(None, None, Some(&semantic), None);
    assert!(context.clang_success);
    assert!((context.semantic_usr_ratio as f64 / 1_000_000_000.0 - 1.0).abs() < 0.0001);
}

fn agreement_of(code: &str, name: &str, reference_lines: &[usize]) -> f64 {
    let tree = parse(code);
    let stable_id = format!("usr:{name}");
    let semantic = SemanticFileContext {
        clang_success: true,
        declarations: vec![declaration(
            &stable_id,
            SemanticIdProvenance::Usr,
            name,
            clang_sys::CXCursor_VarDecl,
            1,
            Some(&stable_id),
        )],
        references: reference_lines
            .iter()
            .map(|line| reference(&stable_id, clang_sys::CXCursor_VarDecl, *line))
            .collect(),
        ..SemanticFileContext::default()
    };
    let uses = vec![count_names(tree.root_node(), code, name)];
    let context = ConfidenceContext::from_parsers_and_semantic(
        Some(&tree),
        None,
        Some(&semantic),
        Some(&uses),
    );
    context.text_scan_agreement as f64 / 1_000_000_000.0
}

#[test]
fn agreement_perfect_match() {
    let agreement = agreement_of("int myVar = 0;\nint x = myVar + 1;\n", "myVar", &[2]);
    assert!(agreement >= 0.99, "expected perfect agreement, got {}", agreement);
}

#[test]
fn agreement_low_extra() {
    let code = "int val = 0;\nint a = val;\nint b = val;\nint c = val;\nint d = val;\n";
    let agreement = agreement_of(code, "val", &[2]);
    assert!(agreement < 1.0, "expected low agreement, got {}", agreement);
    assert!(
        agreement > 0.3 && agreement < 0.5,
        "expected continuous partial credit ~0.4, got {}",
        agreement
    );
}

#[test]
fn agreement_partial_credit() {
    let code = "int foo = 0;\nint a = foo;\nint b = foo;\nint c = foo;\n";
    let agreement = agreement_of(code, "foo", &[2, 3]);
    assert!(
        agreement > 0.6 && agreement < 0.85,
        "expected partial credit ~0.75, got {}",
        agreement
    );
}

#[test]
fn agreement_neutral_norefs() {
    let semantic = SemanticFileContext {
        clang_success: true,
        declarations: vec![declaration(
            "usr:demo",
            SemanticIdProvenance::Usr,
            "DemoFn",
            clang_sys::CXCursor_FunctionDecl,
            1,
            Some("usr:demo"),
        )],
        ..SemanticFileContext::default()
    };
    let context = ConfidenceContext::from_parsers_and_semantic(None, None, Some(&semantic), None);
    assert!(
        (context.text_scan_agreement as f64 / 1_000_000_000.0 - 0.5).abs() < 0.01,
        "expected neutral 0.5 when no refs checked, got {}",
        context.text_scan_agreement
    );
}

#[test]
fn short_names_are_not_looked_for() {
    let agreement = agreement_of("int v = 0;\nint a = v;\nint b = v;\nint c = v;\n", "v", &[2]);
    assert_eq!(agreement, 0.5);
}

#[test]
fn half_of_the_files_must_be_seen_often() {
    assert!(!has_sufficient_observations(&[], 0));
    assert!(has_sufficient_observations(&[5, 1], 5));
    assert!(!has_sufficient_observations(&[5, 1, 4], 5));
    assert!(has_sufficient_observations(&[5, 1, 9], 5));
}
