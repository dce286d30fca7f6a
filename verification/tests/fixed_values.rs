use policy_engine::certainty_filter::CertaintyFilterState;
use policy_engine::context_tracker::{
    candidate_confidence, context_modifier_for_policy, dominant_block_index, interp_modifier,
    policy_index, BlockContextKind, FileContextKind, PolicyContextTracker, PolicyOutcomeRecord,
    NUM_POLICIES,
};
use policy_engine::enforcement::Enforcement;
use policy_engine::file_context::{SemanticRegionKind, SemanticScopeKind};
use policy_engine::gate_decision::ConfidenceReasonCode;
use policy_engine::proposer::in_preprocessor;
use policy_engine::suppression::PolicySuppression;

fn shown(modifier: u32) -> f64 {
    modifier as f64 / 1_000_000_000.0
}

#[test]
fn renders_tier_adjustment() {
    let reason = ConfidenceReasonCode::TierAdjusted {
        from: Enforcement::Hard,
        to: Enforcement::Soft,
    };
    assert_eq!(reason.render(), "tier_adjusted:hard->soft");
}

#[test]
fn supports_disable_ranges() {
    let source = "\
// mjf:ignore naming_conventions
int BadName = 0;
// mjf:disable naming_conventions
int AlsoBad = 0;
// mjf:enable naming_conventions
int GoodName = 0;
";
    let lines = PolicySuppression::disabled_lines(source, "naming_conventions");
    assert!(lines.contains(&1));
    assert!(lines.contains(&3));
    assert!(lines.contains(&4));
    assert!(!lines.contains(&6));
}

#[test]
fn directives_reach_only_the_policies_they_name() {
    let source = "// MJF:DISABLE Include_Order\nint a;\n// mjf:enable all\nint b;\n";
    let order = PolicySuppression::disabled_lines(source, "include_order");
    let other = PolicySuppression::disabled_lines(source, "class_layout");
    assert!(other.is_empty());
    assert!(!order.contains(&4));
    let plain = PolicySuppression::disabled_lines("int a;\nint b;\n", "include_order");
    assert!(plain.is_empty());
}

#[test]
fn geometric_mean_lenient() {
    let loc_mod: f64 = 0.50;
    let ctx_mod: f64 = 0.70;
    let multiplicative = loc_mod * ctx_mod;
    let geometric = (loc_mod * ctx_mod).sqrt();
    assert!(
        geometric > multiplicative,
        "geometric mean should be gentler: geo={geometric}, mult={multiplicative}"
    );
    assert!(geometric < 1.0, "geometric mean should still penalize");
}

#[test]
fn neutral_modifier_with_no_observations() {
    let tracker = PolicyContextTracker::new();
    let m = shown(tracker.context_modifier(0, FileContextKind::Header, BlockContextKind::Global));
    assert!((m - 1.0).abs() < 1e-6, "expected neutral modifier, got {}", m);
}

#[test]
fn modifier_increases_after_successes() {
    let mut tracker = PolicyContextTracker::new();
    for _ in 0..10 {
        tracker.observe_file(0, FileContextKind::Header, true);
        tracker.observe_block(0, BlockContextKind::Namespace, true);
    }
    let m =
        shown(tracker.context_modifier(0, FileContextKind::Header, BlockContextKind::Namespace));
    assert!(m > 1.0, "expected boost after successes, got {}", m);
}

#[test]
fn modifier_decreases_after_failures() {
    let mut tracker = PolicyContextTracker::new();
    for _ in 0..10 {
        tracker.observe_file(0, FileContextKind::Implementation, false);
        tracker.observe_block(0, BlockContextKind::Function, false);
    }
    let m = shown(tracker.context_modifier(
        0,
        FileContextKind::Implementation,
        BlockContextKind::Function,
    ));
    assert!(m < 1.0, "expected penalty after failures, got {}", m);
}

#[test]
fn batch_file_modifiers_neutral_initially() {
    let tracker = PolicyContextTracker::new();
    let mods = tracker.batch_file_modifiers(FileContextKind::Header);
    for i in 0..NUM_POLICIES {
        assert!((shown(mods[i]) - 1.0).abs() < 1e-6, "policy {} not neutral: {}", i, mods[i]);
    }
}

#[test]
fn batch_file_modifiers_reflect_learning() {
    let mut tracker = PolicyContextTracker::new();
    for _ in 0..10 {
        tracker.observe_file(5, FileContextKind::Header, true);
    }
    for _ in 0..10 {
        tracker.observe_file(10, FileContextKind::Header, false);
    }
    let mods = tracker.batch_file_modifiers(FileContextKind::Header);
    assert!(shown(mods[5]) > 1.0, "policy 5 should be boosted: {}", mods[5]);
    assert!(shown(mods[10]) < 1.0, "policy 10 should be penalized: {}", mods[10]);
    assert!((shown(mods[0]) - 1.0).abs() < 1e-6);
}

#[test]
fn interp_modifier_boundaries() {
    assert!((shown(interp_modifier(0)) - 0.5).abs() < 1e-6);
    assert!((shown(interp_modifier(500_000_000)) - 1.0).abs() < 1e-6);
    assert!((shown(interp_modifier(1_000_000_000)) - 1.3).abs() < 1e-6);
    assert!((shown(interp_modifier(250_000_000)) - 0.75).abs() < 1e-6);
}

#[test]
fn policy_index_covers_all_known() {
    assert_eq!(policy_index("dash_comment_normalizer"), Some(0));
    assert_eq!(policy_index("numeric_literal_suffix"), Some(15));
    assert_eq!(policy_index("unknown_policy"), None);
    assert_eq!(policy_index("trim_trailing_whitespace"), None);
    assert_eq!(policy_index("align_assignments"), None);
}

#[test]
fn batch_observe_outcomes_updates_both() {
    let mut tracker = PolicyContextTracker::new();
    let outcomes = vec![
        PolicyOutcomeRecord { policy_index: 0, block_kind: BlockContextKind::Global, success: true },
        PolicyOutcomeRecord {
            policy_index: 1,
            block_kind: BlockContextKind::Namespace,
            success: false,
        },
    ];
    for _ in 0..5 {
        tracker.batch_observe_outcomes(FileContextKind::Header, &outcomes);
    }
    let m0 = shown(tracker.context_modifier(0, FileContextKind::Header, BlockContextKind::Global));
    let m1 =
        shown(tracker.context_modifier(1, FileContextKind::Header, BlockContextKind::Namespace));
    assert!(m0 > 1.0, "policy 0 should be boosted: {}", m0);
    assert!(m1 < 1.0, "policy 1 should be penalized: {}", m1);
}

#[test]
fn batch_block_modifiers_neutral_initially() {
    let tracker = PolicyContextTracker::new();
    let mods = tracker.batch_block_modifiers(BlockContextKind::Function);
    for p in 0..NUM_POLICIES {
        assert!((shown(mods[p]) - 1.0).abs() < 1e-6, "policy {p} should be neutral");
    }
}

#[test]
fn batch_block_modifiers_reflect_learning() {
    let mut tracker = PolicyContextTracker::new();
    for _ in 0..5 {
        tracker.observe_block(2, BlockContextKind::Function, true);
        tracker.observe_block(3, BlockContextKind::Function, false);
    }
    let mods = tracker.batch_block_modifiers(BlockContextKind::Function);
    assert!(shown(mods[2]) > 1.0, "policy 2 should be boosted: {}", mods[2]);
    assert!(shown(mods[3]) < 1.0, "policy 3 should be penalized: {}", mods[3]);
    assert!((shown(mods[0]) - 1.0).abs() < 1e-6, "policy 0 should be neutral");
}

#[test]
fn one_outcome_counts_for_a_fifth() {
    let mut tracker = PolicyContextTracker::new();
    tracker.observe_file(0, FileContextKind::Paired, true);
    assert_eq!(tracker.file_ema[2], 600_000_000);
    assert_eq!(tracker.file_cnt[2], 1);
    tracker.observe_file(0, FileContextKind::Paired, false);
    assert_eq!(tracker.file_ema[2], 480_000_000);
    // Two observations are too few to change anything.
    assert_eq!(tracker.file_modifier(0, FileContextKind::Paired), 1_000_000_000);
    tracker.observe_file(0, FileContextKind::Paired, true);
    assert_eq!(tracker.file_ema[2], 584_000_000);
    assert_eq!(tracker.file_modifier(0, FileContextKind::Paired), 1_050_400_000);
    // A policy that is not followed leaves no trace.
    tracker.observe_file(40, FileContextKind::Header, true);
    assert_eq!(tracker.file_modifier(40, FileContextKind::Header), 1_000_000_000);
}

#[test]
fn extensions_tell_the_kind_of_file() {
    assert_eq!(FileContextKind::from_path("engine.CPP"), FileContextKind::Implementation);
    assert_eq!(FileContextKind::from_path("a.b.cc"), FileContextKind::Implementation);
    assert_eq!(FileContextKind::from_path("engine.hpp"), FileContextKind::Header);
    assert_eq!(FileContextKind::from_path(".cpp"), FileContextKind::Header);
    assert_eq!(FileContextKind::from_path("Makefile"), FileContextKind::Header);
    assert_eq!(
        BlockContextKind::from_scope_kind(SemanticScopeKind::Attribute),
        BlockContextKind::Global
    );
    assert_eq!(
        BlockContextKind::from_scope_kind(SemanticScopeKind::Template),
        BlockContextKind::Template
    );
}

#[test]
fn named_modifiers_multiply() {
    let mut tracker = PolicyContextTracker::new();
    for _ in 0..3 {
        tracker.observe_file(14, FileContextKind::Header, true);
        tracker.observe_block(14, BlockContextKind::Type, false);
    }
    let files = tracker.batch_file_modifiers(FileContextKind::Header);
    let blocks = vec![
        tracker.batch_block_modifiers(BlockContextKind::Namespace),
        tracker.batch_block_modifiers(BlockContextKind::Type),
        tracker.batch_block_modifiers(BlockContextKind::Function),
        tracker.batch_block_modifiers(BlockContextKind::Preprocessor),
        tracker.batch_block_modifiers(BlockContextKind::Global),
        tracker.batch_block_modifiers(BlockContextKind::Template),
    ];
    assert_eq!(context_modifier_for_policy(&files, &blocks, "snake_case", None), files[14]);
    assert_eq!(
        context_modifier_for_policy(&files, &blocks, "snake_case", Some(1)),
        tracker.context_modifier(14, FileContextKind::Header, BlockContextKind::Type)
    );
    assert_eq!(context_modifier_for_policy(&files, &blocks, "custom", Some(1)), 1_000_000_000);
}

#[test]
fn the_last_of_the_fullest_blocks_dominates() {
    let function = Some(BlockContextKind::Function);
    let ty = Some(BlockContextKind::Type);
    assert_eq!(dominant_block_index(true, &[]), 4);
    assert_eq!(dominant_block_index(false, &[(3, ty)]), 4);
    assert_eq!(dominant_block_index(true, &[(3, ty), (4, function)]), 2);
    assert_eq!(dominant_block_index(true, &[(3, ty), (4, ty), (5, function)]), 1);
    assert_eq!(dominant_block_index(true, &[(0, ty), (0, ty), (5, function)]), 4);
    assert_eq!(dominant_block_index(true, &[(7, None)]), 4);
}

#[test]
fn confidence_goes_by_the_dominant_block() {
    let files = vec![1_300_000_000; 24];
    let mut blocks = vec![vec![1_000_000_000; 24]; 6];
    blocks[1] = vec![500_000_000; 24];
    let confidence = |base: Option<i64>, name: &str, known: bool, block: BlockContextKind| {
        let edits = [(3, Some(block)), (4, Some(block)), (5, None)];
        candidate_confidence(base, &files, &blocks, name, known, &edits)
    };
    let (ty, function) = (BlockContextKind::Type, BlockContextKind::Function);
    assert_eq!(confidence(None, "snake_case", true, ty), 650_000_000);
    assert_eq!(confidence(None, "snake_case", true, function), 1_300_000_000);
    assert_eq!(confidence(None, "snake_case", false, ty), 1_300_000_000);
    assert_eq!(confidence(Some(400_000_000), "snake_case", true, ty), 260_000_000);
    assert_eq!(confidence(Some(-400_000_000), "snake_case", true, ty), -260_000_000);
    assert_eq!(confidence(Some(400_000_000), "custom", true, ty), 400_000_000);
    assert!(confidence(Some(400_010_000), "snake_case", true, ty) >= 260_000_000);
}

#[test]
fn a_region_or_a_scope_puts_a_line_in_the_preprocessor() {
    let (directive, other) = (SemanticRegionKind::Preprocessor, SemanticRegionKind::Other);
    let scope = SemanticScopeKind::Preprocessor;
    assert!(in_preprocessor(&[other, directive], None, None));
    assert!(in_preprocessor(&[], Some(directive), None));
    assert!(in_preprocessor(&[], None, Some(scope)));
    assert!(!in_preprocessor(&[], None, None));
    assert!(!in_preprocessor(
        &[other, SemanticRegionKind::Diagnostic],
        Some(other),
        Some(SemanticScopeKind::Function)
    ));
}

#[test]
fn rich_files_reach_further() {
    let radius = |richness: u32| {
        let mut state = CertaintyFilterState::new();
        state.estimates[3] = richness;
        state.richness_radius()
    };
    assert_eq!(radius(0), 1);
    assert_eq!(radius(500_000_000), 1);
    assert_eq!(radius(750_000_000), 2);
    assert_eq!(radius(1_000_000_000), 2);
}

#[test]
fn the_spelling_of_names_does_not_matter() {
    let source = "int a;\n// mjf:disable naming_conventions\nint b;\n";
    let plain = PolicySuppression::disabled_lines(source, "naming_conventions");
    assert!(plain.contains(&2) && plain.contains(&3) && !plain.contains(&1));
    assert_eq!(PolicySuppression::disabled_lines(source, "  Naming_CONVENTIONS\t"), plain);
    let shouted = "int a;\n// mjf:disable  NAMING_Conventions \nint b;\n";
    assert_eq!(PolicySuppression::disabled_lines(shouted, "naming_conventions"), plain);
    assert_eq!(PolicySuppression::disabled_lines(shouted, "NAMING_CONVENTIONS"), plain);
}
