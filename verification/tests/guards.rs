use std::collections::BTreeSet;

use policy_engine::catalog::PolicyCapabilityMatrix;
use policy_engine::certainty_filter::CertaintyFilterState;
use policy_engine::convergence::ConvergencePolicySignal;
use policy_engine::edit_guard::{EditGuard, NodeClass, TouchContract};
use policy_engine::file_context::SemanticRegionKind;
use policy_engine::fuzzy_inference::PolicyCertainty;
use policy_engine::model::Edit;
use policy_engine::pipeline::checkpoint::{
    asks_clang, checkpoint_policy_stage, text_to_recover, PolicyCheckpointResult,
};
use policy_engine::proposer::{
    EditEvidence, EditPrints, ProposalContext, ProposerController, SymbolEvidence,
};
use policy_engine::semantic_contract::SemanticInvariantClause;
use policy_engine::syntax::{
    comment_lines_from_tree, compute_changed_ranges, nodes_of, protected_captures,
    tree_error_stats, TreeErrorStats,
};
use policy_engine::zone::PolicyZone;

fn edit(policy: &str, line: usize, before: &str, after: &str) -> Edit {
    Edit {
        policy: policy.to_string(),
        line,
        before: before.to_string(),
        after: after.to_string(),
    }
}

fn parse(source: &str) -> tree_sitter::Tree {
    let mut parser = tree_sitter::Parser::new();
    parser.set_language(&tree_sitter_cpp::LANGUAGE.into()).expect("cpp language");
    parser.parse(source, None).expect("parse tree")
}

#[test]
fn whitespace_blocks_nonws() {
    let edits = vec![edit("p", 3, "int A", "int B")];
    let violations = EditGuard::validate(
        "policy_x",
        &TouchContract::WhitespaceOnly,
        &edits,
        None,
        false,
        None,
        false,
    );
    assert_eq!(violations.len(), 1);
    assert!(violations[0].message.contains("whitespace_only"));
}

#[test]
fn blocks_comment_edits() {
    let source = "// comment\nint x = 1;\n";
    let tree = parse(source);
    let edits = vec![edit("p", 1, "// comment", "// changed")];
    let violations = EditGuard::validate(
        "policy_x",
        &TouchContract::CodeOnly,
        &edits,
        Some(&tree),
        false,
        None,
        false,
    );
    assert_eq!(violations.len(), 1);
    assert!(violations[0].message.contains("code_only"));
}

#[test]
fn contracts_let_pass_what_they_allow() {
    let tree = parse("#if 1\nint x = 1;\n#endif\n");
    let spaced = vec![edit("p", 2, "int x = 1;  ", "int x = 1;")];
    let objections = |contract: TouchContract, edits: &[Edit]| {
        EditGuard::validate("p", &contract, edits, Some(&tree), true, None, false)
    };
    assert!(objections(TouchContract::Any, &spaced).is_empty());
    assert!(objections(TouchContract::WhitespaceOnly, &spaced).is_empty());
    let directive = vec![edit("p", 1, "#if 1", "#if 0")];
    assert!(objections(TouchContract::PreprocessorOnly, &directive).is_empty());
    assert_eq!(objections(TouchContract::CodeOnly, &directive)[0].line, 1);
    assert_eq!(EditGuard::classify_capture("preproc"), NodeClass::Preprocessor);
    assert_eq!(EditGuard::classify_capture("string"), NodeClass::Text);
    assert_eq!(EditGuard::classify_capture("c"), NodeClass::Other);
    assert_eq!(EditGuard::classify_node_kind("preproc_if"), NodeClass::Preprocessor);
    assert_eq!(EditGuard::classify_node_kind("char_literal"), NodeClass::Text);
    assert_eq!(EditGuard::classify_node_kind("identifier"), NodeClass::Other);
}

#[test]
fn a_query_captures_what_is_protected() {
    let source = "#include <map>\nint x = 1; // one\nconst char* y = \"y\";\n";
    let tree = parse(source);
    let captures: Vec<(String, usize, usize)> = protected_captures(&tree)
        .expect("the query compiles")
        .into_iter()
        .map(|c| (c.name, c.start_row, c.end_row))
        .collect();
    assert_eq!(
        captures,
        vec![
            ("preproc".to_string(), 0, 1),
            ("string".to_string(), 0, 0),
            ("comment".to_string(), 1, 1),
            ("string".to_string(), 2, 2),
        ]
    );
    let protected = EditGuard::collect_protected_lines(&tree, true);
    assert_eq!(protected.preprocessor, BTreeSet::from([1, 2]));
    assert_eq!(protected.strings, BTreeSet::from([1, 3]));
    assert_eq!(protected.comments, BTreeSet::from([2]));
    let by_kind = EditGuard::collect_protected_lines_dfs(&tree);
    assert_eq!(by_kind.strings, protected.strings);
    assert_eq!(by_kind.comments, protected.comments);
}

#[test]
fn a_query_leaves_pragmas_to_code() {
    let tree = parse("#pragma once\nint x = 1;\n");
    let edits = vec![edit("p", 1, "#pragma once", "#pragma  once")];
    let by_query =
        EditGuard::validate("p", &TouchContract::CodeOnly, &edits, Some(&tree), true, None, false);
    assert!(by_query.is_empty());
    let by_kind =
        EditGuard::validate("p", &TouchContract::CodeOnly, &edits, Some(&tree), false, None, false);
    assert_eq!(
        by_kind[0].message,
        "Blocked edits from 'p': code_only contract touched protected lines 1"
    );
}

#[test]
fn a_file_that_is_known_well_relaxes_the_guard() {
    let tree = parse("// comment\nint x = 1;\n");
    let edits = vec![edit("p", 1, "// comment", "// changed")];
    let certainty = PolicyCertainty {
        structural: 950_000_000,
        semantic: 950_000_000,
        coverage: 950_000_000,
        richness: 950_000_000,
        semantic_lower_ci: 900_000_000,
        edit_success_lower_ci: 950_000_000,
        stable_model_prob: 1_000_000_000,
        noisy_model_prob: 0,
        general_trust: 950_000_000,
        structural_trust: 950_000_000,
        observation_count: 40,
    };
    let objections = |safe: bool| {
        EditGuard::validate(
            "p",
            &TouchContract::CodeOnly,
            &edits,
            Some(&tree),
            true,
            Some(&certainty),
            safe,
        )
        .len()
    };
    assert_eq!(objections(true), 0);
    assert_eq!(objections(false), 1);
}

#[test]
fn the_nodes_of_a_tree_are_listed() {
    let tree = parse("// a\nint x = 1;\n/* b\n c */\n");
    let nodes = nodes_of(&tree);
    assert_eq!(nodes[0].kind, "translation_unit");
    assert_eq!(nodes.len(), tree.root_node().descendant_count());
    let comments: Vec<(usize, usize)> = nodes
        .iter()
        .filter(|node| node.kind == "comment")
        .map(|node| (node.start_row, node.end_row))
        .collect();
    assert_eq!(comments, vec![(0, 0), (2, 3)]);
    assert_eq!(comment_lines_from_tree(Some(&tree)), BTreeSet::from([1, 3, 4]));
    assert!(comment_lines_from_tree(None).is_empty());
}

#[test]
fn errors_in_a_tree_are_counted() {
    let sound = tree_error_stats(&parse("int x = 1;\n"));
    assert_eq!(sound.error_nodes, 0);
    assert!(sound.error_lines.is_empty());
    assert_eq!(sound.error_ratio(), 0);
    let broken = tree_error_stats(&parse("int y;\nint x = ;\n"));
    assert!(broken.error_nodes > 0);
    assert_eq!(broken.error_lines, BTreeSet::from([2]));
    let stats = TreeErrorStats { total_nodes: 3, error_nodes: 2, error_lines: BTreeSet::new() };
    assert_eq!(stats.error_ratio(), 666_666_667);
}

#[test]
fn trees_are_told_apart() {
    let before = parse("int x = 1;\n");
    let after = parse("int f() { return 1; }\n");
    assert!(compute_changed_ranges(None, Some(&after)).is_none());
    assert!(compute_changed_ranges(Some(&before), None).is_none());
    assert!(compute_changed_ranges(Some(&before), Some(&before)).is_none());
    let changes = compute_changed_ranges(Some(&before), Some(&after)).expect("the trees differ");
    assert!(!changes.is_empty());
}

#[test]
fn a_checkpoint_reads_the_trees() {
    let current = "int a;\nint b;\n";
    let edits = vec![edit("p", 1, "int a;\n", "int z;\n"), edit("p", 2, "int b;\n", "int (;\n")];
    let before = parse(current);
    let after = parse("int z;\nint (;\n");
    assert!(asks_clang(true, Some(&before), Some(&after)));
    assert!(!asks_clang(true, Some(&before), Some(&before)));
    let text = text_to_recover(current, &edits, true, Some(&before), Some(&after), None)
        .expect("one edit stays");
    assert_eq!(text, "int z;\nint b;\n");
    let recovered = parse(&text);
    let outcome = checkpoint_policy_stage(
        "p",
        current,
        &edits,
        true,
        Some(&before),
        Some(&after),
        None,
        Some(&recovered),
    );
    assert!(matches!(
        outcome,
        PolicyCheckpointResult::PartialRollback { ref recovered_edits, .. }
            if recovered_edits.len() == 1
    ));
    let taken_back = checkpoint_policy_stage(
        "p",
        current,
        &edits,
        true,
        Some(&before),
        Some(&after),
        None,
        None,
    );
    assert!(matches!(taken_back, PolicyCheckpointResult::Rollback { .. }));
    assert!(matches!(
        checkpoint_policy_stage(
            "p",
            current,
            &edits,
            true,
            Some(&before),
            Some(&recovered),
            None,
            None
        ),
        PolicyCheckpointResult::Accept { validated: true }
    ));
}

fn context<'a>(
    signal: &'a ConvergencePolicySignal,
    comments: Option<&'a BTreeSet<usize>>,
    policy: &str,
) -> ProposalContext<'a> {
    let adaptive = CertaintyFilterState::new();
    ProposalContext {
        available: true,
        comment_lines: comments,
        convergence_signal: signal,
        capability: PolicyCapabilityMatrix::for_policy(policy),
        confidence: 900_000_000,
        confidence_penalty: adaptive.confidence_penalty(),
        trust_deficit_penalty: adaptive.trust_deficit_penalty(),
        richness_radius: 1,
        style: adaptive.style_gain_weights(),
    }
}

#[test]
fn marks_protected_zone() {
    let edits = vec![edit("compact_declarations", 2, "x", "x ")];
    let evidence = vec![EditEvidence {
        regions_on_line: vec![SemanticRegionKind::Preprocessor],
        region_at: None,
        scope_at: None,
        block_at: None,
        in_macro_region: false,
        safe_edit: true,
        symbol: None,
    }];
    let signal = ConvergencePolicySignal::default();
    let comments = BTreeSet::new();
    let candidates = ProposerController::new().propose(
        "compact_declarations",
        &edits,
        &evidence,
        &context(&signal, Some(&comments), "compact_declarations"),
    );
    assert_eq!(candidates.len(), 1);
    assert_eq!(candidates[0].zone.as_str(), "preprocessor");
}

#[test]
fn prints_depend_on_what_is_written() {
    let evidence = || EditEvidence {
        regions_on_line: vec![],
        region_at: None,
        scope_at: None,
        block_at: None,
        in_macro_region: false,
        safe_edit: true,
        symbol: Some(SymbolEvidence {
            stable_id: "usr:a".to_string(),
            declared: true,
            references: vec![(4, 2), (9, 1)],
        }),
    };
    let edits =
        vec![edit("p", 2, "x", "y"), edit("p", 3, "x", "y"), edit("p", 4, "x", "z")];
    let prints = ProposerController::take_prints(&edits, &[evidence(), evidence(), evidence()]);
    assert_eq!(prints[0].after, prints[1].after);
    assert_ne!(prints[0].after, prints[2].after);
    assert_eq!(prints[0].symbols.len(), 3);
    assert_eq!(prints[0].symbols, prints[2].symbols);
    assert_ne!(prints[0].symbols[1], prints[0].symbols[2]);
}

#[test]
fn comments_have_their_own_zone() {
    let edits = vec![edit("compact_declarations", 5, "// a", "// b")];
    let evidence = vec![EditEvidence {
        regions_on_line: vec![],
        region_at: None,
        scope_at: None,
        block_at: None,
        in_macro_region: false,
        safe_edit: true,
        symbol: None,
    }];
    let signal = ConvergencePolicySignal::default();
    let mut comments = BTreeSet::new();
    comments.insert(5);
    let prints = vec![EditPrints { after: 7, symbols: vec![] }];
    let candidates = ProposerController::new().propose_with_prints(
        "compact_declarations",
        &edits,
        &evidence,
        &prints,
        &context(&signal, Some(&comments), "compact_declarations"),
    );
    assert_eq!(candidates[0].zone, PolicyZone::Comments);
    assert_eq!(candidates[0].after_fingerprint, 7);
    let capability = PolicyCapabilityMatrix::for_policy("compact_declarations");
    let assessment = ProposerController::assess(&candidates, &capability);
    assert_eq!(
        assessment.blocked_zone_lines.contains(&5),
        !capability.allows_zone(PolicyZone::Comments)
    );
}

#[test]
fn unsafe_edits_are_held_back() {
    let edits = vec![edit("compact_declarations", 5, "int a;", "int b;")];
    let evidence = vec![EditEvidence {
        regions_on_line: vec![],
        region_at: None,
        scope_at: None,
        block_at: None,
        in_macro_region: false,
        safe_edit: false,
        symbol: None,
    }];
    let signal = ConvergencePolicySignal::default();
    let candidates = ProposerController::new().propose(
        "compact_declarations",
        &edits,
        &evidence,
        &context(&signal, None, "compact_declarations"),
    );
    let capability = PolicyCapabilityMatrix::for_policy("compact_declarations");
    let assessment = ProposerController::assess(&candidates, &capability);
    let bit = SemanticInvariantClause::EditSafety.bit();
    assert_eq!(candidates[0].hard_constraints_touched & bit != 0, true);
    assert!(assessment.allowed.is_empty());
    assert!(assessment.hard_blocked_lines.contains(&5));
}

#[test]
fn style_is_worth_more_where_only_space_changes() {
    let weights = CertaintyFilterState::new().style_gain_weights();
    assert_eq!(ProposerController::style_gain("a", "a", weights), 0);
    assert_eq!(ProposerController::style_gain("a ", "a", weights), 1_200_000_000);
    assert_eq!(ProposerController::style_gain("a", "b", weights), 800_000_000);
}
