use policy_engine::catalog::{policy_catalog, CatalogConvergenceRiskTier, PolicyCatalog};
use policy_engine::catalog::PolicyCapabilityMatrix;
use policy_engine::edit_candidate::CandidateRiskTier;
use policy_engine::policy_id::PolicyId;
use policy_engine::zone::PolicyZone;

fn all_policy_ids() -> Vec<PolicyId> {
    vec![
        PolicyId::DashCommentNormalizer,
        PolicyId::SectionTitleNormalizer,
        PolicyId::CompactDeclarations,
        PolicyId::ClassLayout,
        PolicyId::LuaMacroSpacing,
        PolicyId::NamespaceEndComments,
        PolicyId::PragmaOnceSpacing,
        PolicyId::IncludeGuards,
        PolicyId::IncludeOrder,
        PolicyId::LogicalKeywordOperators,
        PolicyId::FunctionVoidParams,
        PolicyId::OperatorOverloadSpacing,
        PolicyId::ClangFormat,
        PolicyId::NamingConventions,
        PolicyId::SnakeCase,
        PolicyId::NumericLiteralSuffix,
    ]
}

#[test]
fn contains_all_ids() {
    let catalog = PolicyCatalog::build();
    for id in all_policy_ids() {
        assert!(
            catalog.known.iter().any(|entry| entry.name == id.as_str()),
            "missing catalog entry for {}",
            id.as_str()
        );
    }
}

#[test]
fn flags_match_expected() {
    let catalog = policy_catalog();
    assert!(catalog.behavior("clang_format").needs_exact_compdb);
    assert_eq!(catalog.behavior("naming_conventions").execution_priority, 10);
    assert_eq!(catalog.behavior("clang_format").execution_priority, 90);
    assert!(catalog.behavior("clang_format").keeps_nonlocal_batch);
    assert!(catalog.behavior("clang_format").advisory_on_retry);
    assert!(!catalog.behavior("dash_comment_normalizer").keeps_nonlocal_batch);
}

#[test]
fn rewrite_flag_truth() {
    let catalog = policy_catalog();
    let semantic = catalog.capabilities("naming_conventions");
    assert!(semantic.semantic_rewrite);
    assert_eq!(semantic.risk_tier, CandidateRiskTier::High);

    let stable = catalog.capabilities("dash_comment_normalizer");
    assert!(!stable.semantic_rewrite);
    assert_eq!(stable.risk_tier, CandidateRiskTier::Low);
}

#[test]
fn defaults_stable_anchors() {
    let catalog = policy_catalog();
    let clang = catalog.convergence("clang_format");
    assert_eq!(clang.priority, 1_000);
    assert_eq!(clang.impact_radius, 2);
    assert_eq!(clang.risk_tier, CatalogConvergenceRiskTier::Stabilizer);

    let naming = catalog.convergence("naming_conventions");
    assert_eq!(naming.priority_weight_bp, 420);
    assert_eq!(naming.risk_tier, CatalogConvergenceRiskTier::Rewrite);

    let unknown = catalog.convergence("custom_policy");
    assert_eq!(unknown.priority, 700);
    assert_eq!(unknown.risk_tier, CatalogConvergenceRiskTier::Balanced);
}

#[test]
fn names_and_ids_give_one_answer() {
    let catalog = policy_catalog();
    for id in all_policy_ids() {
        let by_id = catalog.behavior(&id);
        let by_name = catalog.behavior(id.as_str());
        assert_eq!(by_id.execution_priority, by_name.execution_priority);
        assert_eq!(PolicyId::from_str_lossy(id.as_str()).as_str(), id.as_str());
    }
    assert_eq!(PolicyId::from_str_lossy("custom_policy").as_str(), "custom_policy");
}

#[test]
fn capabilities_say_which_zones_are_open() {
    let dash = PolicyCapabilityMatrix::for_policy("dash_comment_normalizer");
    assert!(dash.whitespace_safe || dash.structural_safe || !dash.semantic_rewrite);
    let naming = PolicyCapabilityMatrix::for_policy("naming_conventions");
    assert_eq!(naming.allows_zone(PolicyZone::Code), naming.allowed_zones.contains(PolicyZone::Code));
}
