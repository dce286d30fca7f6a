//! How the semantics of a file bear on a policy's result.
use std::collections::BTreeSet;
use vstd::prelude::*;

use crate::catalog;
use crate::catalog::PolicyCapabilities;
use crate::compdb::SemanticCompdbContextKind;
use crate::convergence;
use crate::convergence::{
    ConvergenceController, ConvergencePolicyProfile, ConvergencePolicySignal, ConvergenceRiskTier,
    NamedProfile,
};
use crate::file_context::{SemanticFileContext, SemanticRegion, SemanticRegionKind, SemanticSummary};
use crate::lines;
use crate::lines::{counted_line_hint, lines_of};
use crate::model;
use crate::model::{
    warn, Edit, EditView, PolicyResult, ResultView, Violation, ViolationView,
};
use crate::pipeline::impact;
use crate::pipeline::impact::{build_semantic_impact_maps, hash_symbols, SymbolHashes};
use crate::pipeline::suppression;
use crate::pipeline::suppression::suppress_lines_impl;
use crate::post_check::CompdbContext;
use crate::semantic_contract::{PolicyGuidanceMode, SemanticInvariantClause};
use crate::small_lists;
use crate::text;
use crate::text::{chars_of, decimal_of, normalize_label, str_eq, string_of, trim_bounds};
use crate::zone::PolicyZone;

verus! {

broadcast use {
    vstd::std_specs::btree::group_btree_axioms,
    vstd::laws_cmp::group_laws_cmp,
};

/// What a policy's settings say of its convergence.
#[derive(Debug)]
pub struct ConvergenceSettings {
    pub domain: Option<String>,
    pub priority: Option<i64>,
    pub impact_radius: Option<i64>,
    pub priority_weight_bp: Option<i64>,
    /// A weight between zero and one, in thousandths.
    pub semantic_priority_weight: Option<u16>,
    pub risk_tier: Option<String>,
}

/// A policy with what its settings say of its convergence.
#[derive(Debug)]
pub struct PolicyConvergence {
    pub policy: String,
    pub settings: Option<ConvergenceSettings>,
}

/// The tier that a label names; any other label leaves the tier as it is.
pub open spec fn tier_named(label: Seq<char>, tier: ConvergenceRiskTier) -> ConvergenceRiskTier {
    if label == "stabilizer"@ || label == "stabilize"@ || label == "low"@ {
        ConvergenceRiskTier::Stabilizer
    } else if label == "rewrite"@ || label == "high"@ {
        ConvergenceRiskTier::Rewrite
    } else if label == "balanced"@ || label == "medium"@ {
        ConvergenceRiskTier::Balanced
    } else {
        tier
    }
}

/// The domain of a policy: the one that is set, or the policy itself.
pub open spec fn domain_of(policy: Seq<char>, settings: Option<ConvergenceSettings>) -> Seq<char> {
    match settings {
        Some(s) => match s.domain {
            Some(domain) => if text::trimmed(domain@).len() > 0 {
                text::trimmed(domain@)
            } else {
                policy
            },
            None => policy,
        },
        None => policy,
    }
}

/// The priority of a policy: the one that is set and not negative, or the
/// catalog's.
pub open spec fn set_priority(policy: Seq<char>, settings: Option<ConvergenceSettings>) -> u16 {
    match settings {
        Some(s) => match s.priority {
            Some(n) => if n > u16::MAX {
                u16::MAX
            } else if n >= 0 {
                n as u16
            } else {
                catalog::named_convergence(policy).priority
            },
            None => catalog::named_convergence(policy).priority,
        },
        None => catalog::named_convergence(policy).priority,
    }
}

/// The radius of a policy.
pub open spec fn set_radius(policy: Seq<char>, settings: Option<ConvergenceSettings>) -> usize {
    match settings {
        Some(s) => match s.impact_radius {
            Some(n) => if n >= 0 {
                n as usize
            } else {
                catalog::named_convergence(policy).impact_radius
            },
            None => catalog::named_convergence(policy).impact_radius,
        },
        None => catalog::named_convergence(policy).impact_radius,
    }
}

/// The weight of a policy. A weight in thousandths comes before one that is
/// given as a share.
pub open spec fn set_weight(policy: Seq<char>, settings: Option<ConvergenceSettings>) -> u16 {
    match settings {
        Some(s) => match s.priority_weight_bp {
            Some(n) => if n > 1_000 {
                1_000
            } else if n >= 0 {
                n as u16
            } else {
                catalog::named_convergence(policy).priority_weight_bp
            },
            None => match s.semantic_priority_weight {
                Some(weight) => weight,
                None => catalog::named_convergence(policy).priority_weight_bp,
            },
        },
        None => catalog::named_convergence(policy).priority_weight_bp,
    }
}

/// The tier of a policy.
pub open spec fn set_tier(policy: Seq<char>, settings: Option<ConvergenceSettings>) ->
    ConvergenceRiskTier {
    let tier = convergence::tier_of(catalog::named_convergence(policy).risk_tier);
    match settings {
        Some(s) => match s.risk_tier {
            Some(label) => tier_named(text::lower_chars(text::trimmed(label@)), tier),
            None => tier,
        },
        None => tier,
    }
}

/// Whether a profile is the one that the settings give.
pub open spec fn is_profile(
    profile: NamedProfile,
    policy: Seq<char>,
    settings: Option<ConvergenceSettings>,
) -> bool {
    &&& profile.policy@ == policy
    &&& profile.profile.domain@ == domain_of(policy, settings)
    &&& profile.profile.priority == set_priority(policy, settings)
    &&& profile.profile.impact_radius == set_radius(policy, settings)
    &&& profile.profile.priority_weight_bp == set_weight(policy, settings)
    &&& profile.profile.risk_tier == set_tier(policy, settings)
}

fn named_tier(label: &str, tier: ConvergenceRiskTier) -> (r: ConvergenceRiskTier)
    ensures
        r == tier_named(text::lower_chars(text::trimmed(label@)), tier),
{
    let label = normalize_label(label);
    let label = label.as_str();
    if str_eq(label, "stabilizer") || str_eq(label, "stabilize") || str_eq(label, "low") {
        ConvergenceRiskTier::Stabilizer
    } else if str_eq(label, "rewrite") || str_eq(label, "high") {
        ConvergenceRiskTier::Rewrite
    } else if str_eq(label, "balanced") || str_eq(label, "medium") {
        ConvergenceRiskTier::Balanced
    } else {
        tier
    }
}

fn build_profile(entry: &PolicyConvergence) -> (r: NamedProfile)
    ensures
        is_profile(r, entry.policy@, entry.settings),
{
    let name = entry.policy.as_str();
    let mut domain = name.to_owned();
    let mut priority = ConvergenceController::default_priority_for(name);
    let mut impact_radius = ConvergenceController::default_impact_radius_for(name);
    let mut weight = ConvergenceController::default_priority_weight_bp_for(name);
    let mut tier = ConvergenceController::default_risk_tier_for(name);
    if let Some(settings) = &entry.settings {
        if let Some(value) = &settings.domain {
            let chars = chars_of(value.as_str());
            let (from, to) = trim_bounds(chars.as_slice());
            if from < to {
                domain = string_of(chars.as_slice(), from, to);
            }
        }
        if let Some(value) = settings.priority {
            if value >= 0 {
                priority = if value > u16::MAX as i64 {
                    u16::MAX
                } else {
                    value as u16
                };
            }
        }
        if let Some(value) = settings.impact_radius {
            if value >= 0 {
                impact_radius = value as usize;
            }
        }
        if let Some(value) = settings.priority_weight_bp {
            if value >= 0 {
                weight = if value > 1_000 {
                    1_000
                } else {
                    value as u16
                };
            }
        } else if let Some(value) = settings.semantic_priority_weight {
            weight = value;
        }
        if let Some(label) = &settings.risk_tier {
            tier = named_tier(label.as_str(), tier);
        }
    }
    NamedProfile {
        policy: name.to_owned(),
        profile: ConvergencePolicyProfile::with_risk_tier(
            domain,
            priority,
            impact_radius,
            weight,
            tier,
        ),
    }
}

/// The profiles that the settings of all policies give.
pub fn build_convergence_profiles(settings: &[PolicyConvergence]) -> (r: Vec<NamedProfile>)
    ensures
        r@.len() == settings@.len(),
        forall|i: int|
            0 <= i < r@.len() ==> is_profile(
                #[trigger] r@[i],
                settings@[i].policy@,
                settings@[i].settings,
            ),
{
    let mut r: Vec<NamedProfile> = Vec::new();
    let mut i: usize = 0;
    while i < settings.len()
        invariant
            i <= settings@.len(),
            r@.len() == i,
            forall|k: int|
                0 <= k < i ==> is_profile(
                    #[trigger] r@[k],
                    settings@[k].policy@,
                    settings@[k].settings,
                ),
        decreases settings@.len() - i,
    {
        r.push(build_profile(&settings[i]));
        i += 1;
    }
    r
}

/// A rating that rose, up to the largest there is.
pub open spec fn up(bp: u16, n: int) -> u16 {
    if bp + n > u16::MAX {
        u16::MAX
    } else {
        (bp + n) as u16
    }
}

/// A rating that fell, down to zero.
pub open spec fn down(bp: u16, n: int) -> u16 {
    if bp < n {
        0
    } else {
        (bp - n) as u16
    }
}

/// The larger of two radii.
pub open spec fn larger(a: usize, b: usize) -> usize {
    if a < b {
        b
    } else {
        a
    }
}

/// How well the file is known: the parsers succeeded, there are no errors, and
/// symbols are resolved.
pub open spec fn known_rating(base: u16, context: SemanticFileContext, summary: SemanticSummary) -> u16 {
    let compiled = if context.clang_success {
        up(base, 200)
    } else {
        base
    };
    let parsed = if !context.tree_has_error {
        up(compiled, 150)
    } else {
        compiled
    };
    let clean = if context.diagnostic_errors == 0 {
        up(parsed, 150)
    } else if context.diagnostic_errors < 10 {
        down(parsed, context.diagnostic_errors * 20)
    } else {
        down(parsed, 200)
    };
    if summary.usr_backed_declaration_count > 0 {
        up(clean, 100)
    } else {
        clean
    }
}

/// Whether a clause failed before.
pub open spec fn failed(failures: Seq<SemanticInvariantClause>, clause: SemanticInvariantClause) -> bool {
    failures.contains(clause)
}

/// Whether identities or references failed before.
pub open spec fn symbols_failed(failures: Seq<SemanticInvariantClause>) -> bool {
    failed(failures, SemanticInvariantClause::SymbolIdentity) || failed(
        failures,
        SemanticInvariantClause::DeclarationReferenceIntegrity,
    )
}

/// How well the semantics are known, in thousandths.
pub open spec fn rating(
    base: u16,
    semantic: Option<SemanticFileContext>,
    summary: SemanticSummary,
    failures: Seq<SemanticInvariantClause>,
) -> u16 {
    let first = match semantic {
        Some(context) => known_rating(base, context, summary),
        None => down(base, 100),
    };
    let second = if symbols_failed(failures) {
        down(first, 80)
    } else {
        first
    };
    let third = if failed(failures, SemanticInvariantClause::ScopeIntegrity) {
        down(second, 60)
    } else {
        second
    };
    let fourth = if failed(failures, SemanticInvariantClause::EditSafety) {
        down(third, 40)
    } else {
        third
    };
    if fourth > 1_000 {
        1_000
    } else {
        fourth
    }
}

/// How far an edit reaches: further the more references and edits there are,
/// and after failures; never further than eight lines, nor than the cap.
pub open spec fn radius_of(
    semantic: Option<SemanticFileContext>,
    summary: SemanticSummary,
    failures: Seq<SemanticInvariantClause>,
    edits: nat,
    cap: Option<usize>,
) -> usize {
    let by_references: usize = if semantic is None {
        0
    } else if summary.reference_count > 2000 {
        3
    } else if summary.reference_count > 500 {
        2
    } else {
        1
    };
    let by_failures: usize = if symbols_failed(failures) || failed(
        failures,
        SemanticInvariantClause::ScopeIntegrity,
    ) {
        2
    } else {
        0
    };
    let by_edits: usize = if edits > 40 {
        3
    } else if edits > 10 {
        2
    } else {
        1
    };
    let radius = larger(larger(by_references, by_failures), by_edits);
    match cap {
        Some(n) => if n < 1 {
            1
        } else if n < radius {
            n
        } else {
            radius
        },
        None => radius,
    }
}

fn clause_failed(failures: &[SemanticInvariantClause], clause: SemanticInvariantClause) -> (r: bool)
    ensures
        r == failed(failures@, clause),
{
    let mut i: usize = 0;
    while i < failures.len()
        invariant
            i <= failures@.len(),
            forall|k: int| 0 <= k < i ==> failures@[k] != clause,
        decreases failures@.len() - i,
    {
        if failures[i] == clause {
            return true;
        }
        i += 1;
    }
    false
}

/// What the signal of a policy is made from.
#[derive(Clone, Copy, Debug)]
pub struct ConvergenceSignalInput<'a> {
    pub edits: &'a [Edit],
    pub semantic: Option<&'a SemanticFileContext>,
    pub summary: SemanticSummary,
    pub previous_contract_failures: &'a [SemanticInvariantClause],
    pub capability: PolicyCapabilities,
    pub cluster_radius_cap: Option<usize>,
    /// The rating from which the file's own is worked out.
    pub base_rating: u16,
}

/// Whether a signal is the one that edits, semantics and earlier failures
/// give, with the numbers of the file's symbols.
pub open spec fn is_signal_of(
    signal: ConvergencePolicySignal,
    edits: Seq<EditView>,
    semantic: Option<SemanticFileContext>,
    summary: SemanticSummary,
    failures: Seq<SemanticInvariantClause>,
    capability: PolicyCapabilities,
    cap: Option<usize>,
    base: u16,
    hashes: SymbolHashes,
) -> bool {
    let radius = radius_of(semantic, summary, failures, edits.len(), cap);
    &&& signal.semantic_confidence_bp == rating(base, semantic, summary, failures)
    &&& signal.impact_radius == radius
    &&& signal.capability_semantic_rewrite == capability.semantic_rewrite
    &&& signal.capability_macro_sensitive == capability.macro_sensitive
    &&& signal.capability_whitespace_safe == capability.whitespace_safe
    &&& signal.solver_dropped_lines == 0
    &&& signal.hard_blocked_lines == 0
    &&& impact::range_views(signal.impact_ranges@) == impact::reach_map(
        impact::impact_lines(edits),
        semantic,
        hashes,
        radius,
    )
    &&& impact::symbol_views(signal.symbol_ids@) == impact::symbol_map(
        impact::impact_lines(edits),
        semantic,
        hashes,
    )
}

/// Whether a signal is the one that its input gives.
pub open spec fn is_signal(
    signal: ConvergencePolicySignal,
    input: ConvergenceSignalInput,
    hashes: SymbolHashes,
) -> bool {
    is_signal_of(
        signal,
        model::edit_views(input.edits@),
        impact::context_of(input.semantic),
        input.summary,
        input.previous_contract_failures@,
        input.capability,
        input.cluster_radius_cap,
        input.base_rating,
        hashes,
    )
}

/// Whether numbers were given to all symbols of a file.
pub open spec fn hashes_fit(semantic: Option<&SemanticFileContext>, hashes: SymbolHashes) -> bool {
    semantic is Some ==> hashes.declarations@.len() == semantic->Some_0.declarations@.len()
        && hashes.references@.len() == semantic->Some_0.references@.len()
}

/// Whether the symbols of a file are numbered by their identities.
pub open spec fn hashes_agree(
    semantic: Option<&SemanticFileContext>,
    hashes: SymbolHashes,
) -> bool {
    hashes_fit(semantic, hashes) && (semantic is Some ==> impact::numbers_symbols(
        *semantic->Some_0,
        hashes,
    ))
}

/// Whether the symbols of a file can be listed.
pub open spec fn symbols_fit(semantic: Option<&SemanticFileContext>) -> bool {
    semantic is Some ==> semantic->Some_0.declarations@.len() + semantic->Some_0.references@.len()
        <= small_lists::list_limit()
}

fn raise(bp: u16, n: u16) -> (r: u16)
    ensures
        r == up(bp, n as int),
{
    if n > u16::MAX - bp {
        u16::MAX
    } else {
        bp + n
    }
}

fn lower(bp: u16, n: u16) -> (r: u16)
    ensures
        r == down(bp, n as int),
{
    if bp < n {
        0
    } else {
        bp - n
    }
}

/// Makes the signal of a policy, given the numbers of the file's symbols.
pub fn signal_with_hashes(input: &ConvergenceSignalInput<'_>, hashes: &SymbolHashes) -> (r:
    ConvergencePolicySignal)
    requires
        hashes_fit(input.semantic, *hashes),
        symbols_fit(input.semantic),
    ensures
        is_signal(r, *input, *hashes),
{
    let failures = input.previous_contract_failures;
    let mut bp: u16 = input.base_rating;
    let mut radius: usize = 0;
    match input.semantic {
        Some(context) => {
            if context.clang_success {
                bp = raise(bp, 200);
            }
            if !context.tree_has_error {
                bp = raise(bp, 150);
            }
            if context.diagnostic_errors == 0 {
                bp = raise(bp, 150);
            } else if context.diagnostic_errors < 10 {
                bp = lower(bp, context.diagnostic_errors as u16 * 20);
            } else {
                bp = lower(bp, 200);
            }
            if input.summary.usr_backed_declaration_count > 0 {
                bp = raise(bp, 100);
            }
            radius = if input.summary.reference_count > 2000 {
                3
            } else if input.summary.reference_count > 500 {
                2
            } else {
                1
            };
        },
        None => {
            bp = lower(bp, 100);
        },
    }
    if clause_failed(failures, SemanticInvariantClause::SymbolIdentity) || clause_failed(
        failures,
        SemanticInvariantClause::DeclarationReferenceIntegrity,
    ) {
        bp = lower(bp, 80);
        if radius < 2 {
            radius = 2;
        }
    }
    if clause_failed(failures, SemanticInvariantClause::ScopeIntegrity) {
        bp = lower(bp, 60);
        if radius < 2 {
            radius = 2;
        }
    }
    if clause_failed(failures, SemanticInvariantClause::EditSafety) {
        bp = lower(bp, 40);
    }
    let by_edits: usize = if input.edits.len() > 40 {
        3
    } else if input.edits.len() > 10 {
        2
    } else {
        1
    };
    if radius < by_edits {
        radius = by_edits;
    }
    if let Some(cap) = input.cluster_radius_cap {
        let cap: usize = if cap < 1 {
            1
        } else {
            cap
        };
        if cap < radius {
            radius = cap;
        }
    }
    assert(model::edit_views(input.edits@).len() == input.edits@.len());
    let (impact_ranges, symbol_ids) = build_semantic_impact_maps(
        input.edits,
        input.semantic,
        hashes,
        radius,
    );
    ConvergencePolicySignal {
        semantic_confidence_bp: if bp > 1_000 {
            1_000
        } else {
            bp
        },
        impact_radius: radius,
        capability_semantic_rewrite: input.capability.semantic_rewrite,
        capability_macro_sensitive: input.capability.macro_sensitive,
        capability_whitespace_safe: input.capability.whitespace_safe,
        solver_dropped_lines: 0,
        hard_blocked_lines: 0,
        impact_ranges,
        symbol_ids,
    }
}

/// Makes the signal of a policy.
pub fn build_convergence_signal(input: &ConvergenceSignalInput<'_>) -> (r:
    ConvergencePolicySignal)
    requires
        symbols_fit(input.semantic),
    ensures
        exists|hashes: SymbolHashes|
            hashes_agree(input.semantic, hashes) && #[trigger] is_signal(r, *input, hashes),
{
    let hashes = match input.semantic {
        Some(context) => hash_symbols(context),
        None => SymbolHashes { declarations: Vec::new(), references: Vec::new() },
    };
    signal_with_hashes(input, &hashes)
}

/// What the semantics say of an edited line.
#[derive(Clone, Copy, Debug, PartialEq, Eq, Structural)]
pub struct LineEvidence {
    /// Whether the line can be edited.
    pub safe_edit: bool,
    /// Whether it can, where macros are left aside.
    pub safe_global: bool,
    pub has_diagnostic_error: bool,
    pub in_macro_region: bool,
    pub declaration_count: usize,
    pub reference_count: usize,
}

/// Whether an edit of a line is safe. A policy that rewrites no symbols may
/// also edit preprocessor lines and comments where it is allowed to, and lines
/// whose errors may be due to guessed options.
pub open spec fn is_safe(
    line: LineEvidence,
    capability: PolicyCapabilities,
    context: CompdbContext,
) -> bool {
    line.safe_edit || (!capability.semantic_rewrite && ((capability.allowed_zones.has(
        PolicyZone::Preprocessor,
    ) && line.safe_global) || (capability.allowed_zones.has(PolicyZone::Comments)
        && !line.has_diagnostic_error) || (!context.exact && context.kind.is_inferred()
        && line.has_diagnostic_error && !line.in_macro_region && line.declaration_count == 0
        && line.reference_count == 0 && capability.structural_safe)))
}

/// Whether an edit changes an unsafe line.
pub open spec fn is_unsafe_edit(
    e: EditView,
    line: LineEvidence,
    capability: PolicyCapabilities,
    context: CompdbContext,
) -> bool {
    e.changes() && !is_safe(line, capability, context)
}

/// The lines of the first `n` edits that are unsafe.
pub open spec fn unsafe_lines(
    edits: Seq<EditView>,
    evidence: Seq<LineEvidence>,
    capability: PolicyCapabilities,
    context: CompdbContext,
    n: int,
) -> Set<usize>
    decreases n,
{
    if n <= 0 {
        Set::empty()
    } else {
        let rest = unsafe_lines(edits, evidence, capability, context, n - 1);
        if is_unsafe_edit(edits[n - 1], evidence[n - 1], capability, context) {
            rest.insert(edits[n - 1].line)
        } else {
            rest
        }
    }
}

/// What is left of a policy's result: unsafe lines are taken back, or, where
/// the policy holds its edits to the contract without exception, everything.
pub open spec fn guided(
    before: Seq<char>,
    r: ResultView,
    lines: Set<usize>,
    policy: Seq<char>,
    mode: PolicyGuidanceMode,
) -> ResultView {
    if lines.len() == 0 {
        r
    } else {
        match mode {
            PolicyGuidanceMode::SoftGuideline => {
                let kept = suppression::suppressed(before, r, lines);
                ResultView {
                    warnings: kept.warnings.push(
                        "semantic guideline dropped "@ + text::decimal(lines.len())
                            + " unsafe edit line(s) for '"@ + policy
                            + "' (mode=soft_guideline, lines="@ + lines::counted_hint(lines, 8)
                            + ")"@,
                    ),
                    ..kept
                }
            },
            PolicyGuidanceMode::HardInvariant => ResultView {
                text: before,
                violations: r.violations.push(
                    ViolationView {
                        policy: "semantic_contract"@,
                        message: "semantic hard invariant blocked '"@ + policy
                            + "' in unsafe region(s) (lines="@ + lines::counted_hint(lines, 8)
                            + ")"@,
                        line: lines::listing(lines)[0],
                        column: Some(1usize),
                    },
                ),
                edits: Seq::empty(),
                warnings: r.warnings,
                changed: false,
            },
        }
    }
}

/// What is left of a policy's result where the semantics are known.
pub open spec fn semantically_guided(
    before: Seq<char>,
    r: ResultView,
    evidence: Option<Seq<LineEvidence>>,
    capability: PolicyCapabilities,
    context: CompdbContext,
    policy: Seq<char>,
    mode: PolicyGuidanceMode,
) -> ResultView {
    match evidence {
        None => r,
        Some(e) => guided(
            before,
            r,
            unsafe_lines(r.edits, e, capability, context, r.edits.len() as int),
            policy,
            mode,
        ),
    }
}

fn line_is_safe(
    line: LineEvidence,
    capability: &PolicyCapabilities,
    context: CompdbContext,
) -> (r: bool)
    ensures
        r == is_safe(line, *capability, context),
{
    if line.safe_edit {
        return true;
    }
    if capability.semantic_rewrite {
        return false;
    }
    let inferred = match context.kind {
        SemanticCompdbContextKind::PairedSourceHeuristic
        | SemanticCompdbContextKind::HeaderConsensus
        | SemanticCompdbContextKind::SourceConsensus => true,
        _ => false,
    };
    let relaxed = !context.exact && inferred && line.has_diagnostic_error
        && !line.in_macro_region && line.declaration_count == 0 && line.reference_count == 0
        && capability.structural_safe;
    (capability.allows_zone(PolicyZone::Preprocessor) && line.safe_global) || (
    capability.allows_zone(PolicyZone::Comments) && !line.has_diagnostic_error) || relaxed
}

/// Holds a policy's result to what the semantics say of the edited lines.
/// Without evidence, nothing is known of them.
pub fn apply_semantic_mode(
    before_text: &str,
    result: PolicyResult,
    evidence: Option<&[LineEvidence]>,
    capability: &PolicyCapabilities,
    context: CompdbContext,
    policy_name: &str,
    guidance_mode: PolicyGuidanceMode,
) -> (r: PolicyResult)
    requires
        evidence is Some ==> evidence->Some_0@.len() == result.edits@.len(),
    ensures
        r@ == semantically_guided(
            before_text@,
            result@,
            match evidence {
                Some(e) => Some(e@),
                None => None,
            },
            *capability,
            context,
            policy_name@,
            guidance_mode,
        ),
{
    let evidence = match evidence {
        Some(evidence) => evidence,
        None => {
            return result;
        },
    };
    let ghost edits = result@.edits;
    let mut bad = BTreeSet::<usize>::new();
    let mut i: usize = 0;
    assert(bad@ =~= Set::empty());
    while i < result.edits.len()
        invariant
            i <= result.edits@.len(),
            evidence@.len() == result.edits@.len(),
            edits == model::edit_views(result.edits@),
            bad@ == unsafe_lines(edits, evidence@, *capability, context, i as int),
        decreases result.edits@.len() - i,
    {
        let edit = &result.edits[i];
        assert(edits[i as int] == edit@);
        if edit.is_change() && !line_is_safe(evidence[i], capability, context) {
            bad.insert(edit.line);
        }
        i += 1;
    }
    assert(edits.len() == result.edits@.len());
    if bad.len() == 0 {
        return result;
    }
    let hint = counted_line_hint(&bad, 8);
    match guidance_mode {
        PolicyGuidanceMode::SoftGuideline => {
            let count = bad.len();
            let mut kept = suppress_lines_impl(before_text, result, &bad);
            let ghost was = kept@;
            let mut message = "semantic guideline dropped ".to_owned();
            message.append(decimal_of(count).as_str());
            message.append(" unsafe edit line(s) for '");
            message.append(policy_name);
            message.append("' (mode=soft_guideline, lines=");
            message.append(hint.as_str());
            message.append(")");
            warn(&mut kept.warnings, message);
            assert(kept@ =~= ResultView { warnings: was.warnings.push(message@), ..was });
            kept
        },
        PolicyGuidanceMode::HardInvariant => {
            let list = lines_of(&bad);
            proof {
                if list@.len() == 0 {
                    assert(list@.to_set() =~= Set::empty());
                }
            }
            let line = list[0];
            let mut message = "semantic hard invariant blocked '".to_owned();
            message.append(policy_name);
            message.append("' in unsafe region(s) (lines=");
            message.append(hint.as_str());
            message.append(")");
            let mut violations = result.violations;
            let ghost were = violations@;
            let violation = Violation {
                policy: "semantic_contract".to_owned(),
                message,
                line,
                column: Some(1),
            };
            let ghost view = violation@;
            violations.push(violation);
            assert(model::violation_views(violations@) =~= model::violation_views(were).push(
                view,
            ));
            let r = PolicyResult {
                text: before_text.to_owned(),
                violations,
                edits: Vec::new(),
                warnings: result.warnings,
                changed: false,
            };
            assert(r@.edits =~= Seq::empty());
            r
        },
    }
}

/// The lines of the first `n` regions that hold compiler errors.
pub open spec fn error_region_lines(regions: Seq<SemanticRegion>, n: int) -> Set<usize>
    decreases n,
{
    if n <= 0 {
        Set::empty()
    } else {
        let rest = error_region_lines(regions, n - 1);
        let region = regions[n - 1];
        if region.has_diagnostic_error && region.kind is Diagnostic {
            rest.union(lines_from(region.start_line, region.end_line + 1))
        } else {
            rest
        }
    }
}

/// The lines from one on, up to another that is not among them.
pub open spec fn lines_from(start: usize, end: int) -> Set<usize> {
    Set::new(|line: usize| start <= line < end)
}

/// The lines of all regions that hold compiler errors.
pub fn semantic_error_lines(regions: &[SemanticRegion]) -> (r: BTreeSet<usize>)
    ensures
        r@ == error_region_lines(regions@, regions@.len() as int),
{
    let mut r = BTreeSet::<usize>::new();
    let mut i: usize = 0;
    assert(r@ =~= Set::empty());
    while i < regions.len()
        invariant
            i <= regions@.len(),
            r@ == error_region_lines(regions@, i as int),
        decreases regions@.len() - i,
    {
        let region = regions[i];
        let ghost was = r@;
        let is_error = match region.kind {
            SemanticRegionKind::Diagnostic => region.has_diagnostic_error,
            _ => false,
        };
        if is_error && region.start_line <= region.end_line {
            let mut line: usize = region.start_line;
            assert(r@ =~= was.union(lines_from(region.start_line, line as int)));
            while line < region.end_line
                invariant
                    region.start_line <= line <= region.end_line,
                    r@ == was.union(lines_from(region.start_line, line as int)),
                decreases region.end_line - line,
            {
                r.insert(line);
                assert(r@ =~= was.union(lines_from(region.start_line, line + 1)));
                line += 1;
            }
            r.insert(line);
            assert(r@ =~= was.union(lines_from(region.start_line, line + 1)));
        } else if is_error {
            assert(r@ =~= was.union(lines_from(region.start_line, region.end_line + 1)));
        }
        i += 1;
    }
    r
}

/// Where a policy holds its edits to the contract without exception, one unsafe
/// line takes all of them back.
pub proof fn lemma_hard_mode_is_all_or_nothing(
    before: Seq<char>,
    r: ResultView,
    lines: Set<usize>,
    policy: Seq<char>,
)
    requires
        lines.len() > 0,
    ensures
        guided(before, r, lines, policy, PolicyGuidanceMode::HardInvariant).text == before,
        guided(before, r, lines, policy, PolicyGuidanceMode::HardInvariant).edits.len() == 0,
{
}

/// Elsewhere no unsafe line is left among the edits.
pub proof fn lemma_soft_mode_drops_unsafe_lines(
    before: Seq<char>,
    r: ResultView,
    lines: Set<usize>,
    policy: Seq<char>,
)
    requires
        lines.len() > 0,
    ensures
        !suppression::names_disabled(
            guided(before, r, lines, policy, PolicyGuidanceMode::SoftGuideline).edits,
            lines,
        ),
{
    suppression::lemma_suppressed_edits(before, r, lines);
}

/// The lines with errors of the compiler are those of the regions that hold
/// some.
pub proof fn lemma_error_regions(regions: Seq<SemanticRegion>, n: int, line: usize)
    requires
        0 <= n <= regions.len(),
    ensures
        error_region_lines(regions, n).contains(line) <==> exists|k: int|
            0 <= k < n && (#[trigger] regions[k]).kind == SemanticRegionKind::Diagnostic
                && regions[k].has_diagnostic_error && regions[k].start_line <= line
                <= regions[k].end_line,
    decreases n,
{
    if n > 0 {
        lemma_error_regions(regions, n - 1, line);
        let last = regions[n - 1];
        if last.kind == SemanticRegionKind::Diagnostic && last.has_diagnostic_error
            && last.start_line <= line <= last.end_line {
            assert(regions[n - 1].kind == SemanticRegionKind::Diagnostic);
        }
    }
}

/// A priority that is set and not negative counts, up to the largest there is;
/// else that of the catalog does. The same holds of the radius, and of the
/// weight, which is at most a thousand.
pub proof fn lemma_settings_count(policy: Seq<char>, settings: Option<ConvergenceSettings>)
    ensures
        settings is Some && settings->Some_0.priority is Some ==> {
            let n = settings->Some_0.priority->Some_0;
            &&& 0 <= n <= 65_535 ==> set_priority(policy, settings) == n
            &&& n > 65_535 ==> set_priority(policy, settings) == 65_535
            &&& n < 0 ==> set_priority(policy, settings) == catalog::named_convergence(
                policy,
            ).priority
        },
        settings is None || settings->Some_0.priority is None ==> set_priority(policy, settings)
            == catalog::named_convergence(policy).priority,
        settings is Some && settings->Some_0.impact_radius is Some && 0
            <= settings->Some_0.impact_radius->Some_0 <= usize::MAX ==> set_radius(policy, settings)
            == settings->Some_0.impact_radius->Some_0,
        settings is None || settings->Some_0.impact_radius is None ==> set_radius(policy, settings)
            == catalog::named_convergence(policy).impact_radius,
        settings is Some && settings->Some_0.priority_weight_bp is Some && 0
            <= settings->Some_0.priority_weight_bp->Some_0 <= 1_000 ==> set_weight(policy, settings)
            == settings->Some_0.priority_weight_bp->Some_0,
        settings is None ==> set_weight(policy, settings) == catalog::named_convergence(
            policy,
        ).priority_weight_bp,
{
}

/// What makes an edit of a line safe. A line that is safe by itself is so for
/// every policy, and for one that rewrites symbols no other line is. For others
/// a line is also safe if it is so for the file as a whole and directives may be
/// touched; or if it has no error and comments may be; or if its error may come
/// of guessed options, nothing is declared or used there, and the policy cannot
/// break the structure of code.
pub proof fn lemma_which_lines_are_safe(
    line: LineEvidence,
    capability: PolicyCapabilities,
    context: CompdbContext,
)
    ensures
        line.safe_edit ==> is_safe(line, capability, context),
        capability.semantic_rewrite ==> is_safe(line, capability, context) == line.safe_edit,
        !capability.semantic_rewrite && line.safe_global && capability.allowed_zones.has(
            PolicyZone::Preprocessor,
        ) ==> is_safe(line, capability, context),
        !capability.semantic_rewrite && !line.has_diagnostic_error && capability.allowed_zones.has(
            PolicyZone::Comments,
        ) ==> is_safe(line, capability, context),
        !line.safe_edit && line.has_diagnostic_error && context.exact && !line.safe_global
            ==> !is_safe(line, capability, context),
        !line.safe_edit && line.has_diagnostic_error && !line.safe_global && (line.in_macro_region
            || line.declaration_count > 0 || line.reference_count > 0
            || !capability.structural_safe) ==> !is_safe(line, capability, context),
        !line.safe_edit && !line.has_diagnostic_error && !capability.allowed_zones.has(
            PolicyZone::Comments,
        ) && !(line.safe_global && capability.allowed_zones.has(PolicyZone::Preprocessor))
            ==> !is_safe(line, capability, context),
{
}

/// The unsafe lines are those of the edits that change a line that is not safe.
pub proof fn lemma_unsafe_lines_exactly(
    edits: Seq<EditView>,
    evidence: Seq<LineEvidence>,
    capability: PolicyCapabilities,
    context: CompdbContext,
    n: int,
    line: usize,
)
    requires
        0 <= n <= edits.len(),
    ensures
        unsafe_lines(edits, evidence, capability, context, n).contains(line) <==> exists|k: int|
            0 <= k < n && (#[trigger] edits[k]).line == line && line > 0 && edits[k].before
                != edits[k].after && !is_safe(evidence[k], capability, context),
        unsafe_lines(edits, evidence, capability, context, n).finite(),
    decreases n,
{
    if n > 0 {
        lemma_unsafe_lines_exactly(edits, evidence, capability, context, n - 1, line);
        if is_unsafe_edit(edits[n - 1], evidence[n - 1], capability, context) && edits[n - 1].line
            == line {
            assert(edits[n - 1].line == line && line > 0);
        }
    }
}

/// An edit of an unsafe line does not get through: where the contract holds
/// without exception it takes everything back, and else it goes itself. Without
/// one, nothing is taken.
pub proof fn lemma_unsafe_edits_do_not_get_through(
    before: Seq<char>,
    r: ResultView,
    evidence: Seq<LineEvidence>,
    capability: PolicyCapabilities,
    context: CompdbContext,
    policy: Seq<char>,
    k: int,
)
    ensures
        0 <= k < r.edits.len() && r.edits[k].line > 0 && r.edits[k].before != r.edits[k].after
            && !is_safe(evidence[k], capability, context) ==> {
            let hard = semantically_guided(
                before,
                r,
                Some(evidence),
                capability,
                context,
                policy,
                PolicyGuidanceMode::HardInvariant,
            );
            let soft = semantically_guided(
                before,
                r,
                Some(evidence),
                capability,
                context,
                policy,
                PolicyGuidanceMode::SoftGuideline,
            );
            &&& hard.text == before && hard.edits.len() == 0
            &&& hard.violations.len() == r.violations.len() + 1
            &&& forall|j: int|
                0 <= j < soft.edits.len() ==> (#[trigger] soft.edits[j]).line != r.edits[k].line
        },
        (forall|j: int| 0 <= j < r.edits.len() ==> is_safe(#[trigger] evidence[j], capability, context))
            && evidence.len() == r.edits.len() ==> {
            &&& semantically_guided(
                before,
                r,
                Some(evidence),
                capability,
                context,
                policy,
                PolicyGuidanceMode::HardInvariant,
            ) == r
            &&& semantically_guided(
                before,
                r,
                Some(evidence),
                capability,
                context,
                policy,
                PolicyGuidanceMode::SoftGuideline,
            ) == r
        },
{
    let n = r.edits.len() as int;
    let lines = unsafe_lines(r.edits, evidence, capability, context, n);
    if 0 <= k < n && r.edits[k].line > 0 && r.edits[k].before != r.edits[k].after && !is_safe(
        evidence[k],
        capability,
        context,
    ) {
        lemma_unsafe_lines_exactly(r.edits, evidence, capability, context, n, r.edits[k].line);
        assert(r.edits[k].line == r.edits[k].line);
        assert(lines.contains(r.edits[k].line));
        assert(lines.len() > 0);
        lemma_soft_mode_drops_unsafe_lines(before, r, lines, policy);
        let soft = guided(before, r, lines, policy, PolicyGuidanceMode::SoftGuideline);
        assert forall|j: int| 0 <= j < soft.edits.len() implies (#[trigger] soft.edits[j]).line
            != r.edits[k].line by {
            assert(!lines.contains(soft.edits[j].line));
        }
    }
    if (forall|j: int| 0 <= j < r.edits.len() ==> is_safe(#[trigger] evidence[j], capability, context))
        && evidence.len() == r.edits.len() {
        assert forall|line: usize| !lines.contains(line) by {
            lemma_unsafe_lines_exactly(r.edits, evidence, capability, context, n, line);
            if lines.contains(line) {
                let j = choose|j: int|
                    0 <= j < n && (#[trigger] r.edits[j]).line == line && line > 0
                        && r.edits[j].before != r.edits[j].after && !is_safe(
                        evidence[j],
                        capability,
                        context,
                    );
                assert(is_safe(evidence[j], capability, context));
            }
        }
        assert(lines =~= Set::empty());
    }
}

/// How far edits reach: further for more edits and references, and after
/// failures of symbols or scopes; and, where a cap is set, no further than it,
/// but at least one line.
pub proof fn lemma_reach_of_edits(
    semantic: Option<SemanticFileContext>,
    summary: SemanticSummary,
    failures: Seq<SemanticInvariantClause>,
    edits: nat,
    cap: Option<usize>,
)
    ensures
        ({
            let free = radius_of(semantic, summary, failures, edits, None);
            let broken = failures.contains(SemanticInvariantClause::SymbolIdentity)
                || failures.contains(SemanticInvariantClause::DeclarationReferenceIntegrity)
                || failures.contains(SemanticInvariantClause::ScopeIntegrity);
            &&& 1 <= free <= 3
            &&& free == 3 <==> edits > 40 || (semantic is Some && summary.reference_count > 2000)
            &&& free >= 2 <==> edits > 10 || broken || (semantic is Some
                && summary.reference_count > 500)
            &&& cap is Some ==> radius_of(semantic, summary, failures, edits, cap) == (
            if cap->Some_0 == 0 {
                1
            } else if cap->Some_0 < free {
                cap->Some_0
            } else {
                free
            })
        }),
{
}

spec fn deducted(first: u16, symbols: bool, scopes: bool, safety: bool) -> u16 {
    let second = if symbols {
        down(first, 80)
    } else {
        first
    };
    let third = if scopes {
        down(second, 60)
    } else {
        second
    };
    let fourth = if safety {
        down(third, 40)
    } else {
        third
    };
    if fourth > 1_000 {
        1_000
    } else {
        fourth
    }
}

proof fn lemma_deducted(a: u16, b: u16, symbols: bool, scopes: bool, safety: bool)
    requires
        a <= b,
    ensures
        deducted(a, symbols, scopes, safety) <= deducted(b, symbols, scopes, safety) <= 1_000,
        deducted(a, symbols, scopes, safety) <= deducted(a, false, false, false),
{
}

proof fn lemma_known(
    base: u16,
    context: SemanticFileContext,
    better: SemanticFileContext,
    summary: SemanticSummary,
)
    requires
        base <= 1_000,
        context.clang_success ==> better.clang_success,
        better.tree_has_error ==> context.tree_has_error,
        better.diagnostic_errors <= context.diagnostic_errors,
    ensures
        known_rating(base, context, summary) <= known_rating(base, better, summary),
{
}

proof fn lemma_rating_is_deducted(
    base: u16,
    context: SemanticFileContext,
    summary: SemanticSummary,
    failures: Seq<SemanticInvariantClause>,
)
    ensures
        rating(base, Some(context), summary, failures) == deducted(
            known_rating(base, context, summary),
            symbols_failed(failures),
            failed(failures, SemanticInvariantClause::ScopeIntegrity),
            failed(failures, SemanticInvariantClause::EditSafety),
        ),
{
}

/// How well a file is known: never above a thousand; no worse where the
/// compiler read it, where its syntax is sound, or where it has fewer errors;
/// and no better after a failure.
pub proof fn lemma_rating_follows_what_is_known(
    base: u16,
    context: SemanticFileContext,
    better: SemanticFileContext,
    summary: SemanticSummary,
    failures: Seq<SemanticInvariantClause>,
)
    requires
        base <= 1_000,
        context.clang_success ==> better.clang_success,
        better.tree_has_error ==> context.tree_has_error,
        better.diagnostic_errors <= context.diagnostic_errors,
    ensures
        rating(base, Some(context), summary, failures) <= 1_000,
        rating(base, Some(context), summary, failures) <= rating(
            base,
            Some(better),
            summary,
            failures,
        ),
        rating(base, Some(context), summary, failures) <= rating(
            base,
            Some(context),
            summary,
            Seq::empty(),
        ),
{
    lemma_known(base, context, better, summary);
    lemma_rating_is_deducted(base, context, summary, failures);
    lemma_rating_is_deducted(base, better, summary, failures);
    lemma_rating_is_deducted(base, context, summary, Seq::empty());
    lemma_deducted(
        known_rating(base, context, summary),
        known_rating(base, better, summary),
        symbols_failed(failures),
        failed(failures, SemanticInvariantClause::ScopeIntegrity),
        failed(failures, SemanticInvariantClause::EditSafety),
    );
}

/// What the signs of a file are worth: the compiler two hundred, sound syntax a
/// hundred and fifty, no error as much, each error twenty off up to two hundred,
/// and resolved symbols a hundred; and a file of which nothing is known a
/// hundred off.
pub proof fn lemma_worth_of_signs(base: u16, context: SemanticFileContext, summary: SemanticSummary)
    requires
        200 <= base <= 1_000,
    ensures
        ({
            let errors = context.diagnostic_errors;
            known_rating(base, context, summary) == base + (if context.clang_success {
                200int
            } else {
                0
            }) + (if context.tree_has_error {
                0int
            } else {
                150
            }) + (if errors == 0 {
                150int
            } else if errors <= 10 {
                -20 * errors
            } else {
                -200
            }) + (if summary.usr_backed_declaration_count > 0 {
                100int
            } else {
                0
            })
        }),
        rating(base, None, summary, Seq::empty()) == base - 100,
{
}

/// A policy is set as its settings say: its domain is the one that is named, or
/// its own name; its tier the one that a label names, or the catalog's.
pub proof fn lemma_profile_follows_settings(
    profile: NamedProfile,
    policy: Seq<char>,
    settings: Option<ConvergenceSettings>,
)
    requires
        is_profile(profile, policy, settings),
    ensures
        profile.policy@ == policy,
        settings is None ==> profile.profile.domain@ == policy,
        settings is Some && settings->Some_0.domain is Some && text::trimmed(
            settings->Some_0.domain->Some_0@,
        ).len() > 0 ==> profile.profile.domain@ == text::trimmed(settings->Some_0.domain->Some_0@),
        settings is Some && settings->Some_0.priority is Some && 0
            <= settings->Some_0.priority->Some_0 <= 65_535 ==> profile.profile.priority
            == settings->Some_0.priority->Some_0,
        settings is Some && settings->Some_0.risk_tier is Some && text::lower_chars(
            text::trimmed(settings->Some_0.risk_tier->Some_0@),
        ) == "high"@ ==> profile.profile.risk_tier == ConvergenceRiskTier::Rewrite,
        settings is Some && settings->Some_0.risk_tier is Some && text::lower_chars(
            text::trimmed(settings->Some_0.risk_tier->Some_0@),
        ) == "low"@ ==> profile.profile.risk_tier == ConvergenceRiskTier::Stabilizer,
        settings is Some && settings->Some_0.risk_tier is Some && text::lower_chars(
            text::trimmed(settings->Some_0.risk_tier->Some_0@),
        ) == "medium"@ ==> profile.profile.risk_tier == ConvergenceRiskTier::Balanced,
        settings is None ==> profile.profile.risk_tier == convergence::tier_of(
            catalog::named_convergence(policy).risk_tier,
        ),
{
    reveal_strlit("high");
    reveal_strlit("low");
    reveal_strlit("medium");
    reveal_strlit("stabilizer");
    reveal_strlit("stabilize");
    reveal_strlit("rewrite");
    reveal_strlit("balanced");
    assert("high"@.len() == 4 && "low"@.len() == 3 && "medium"@.len() == 6);
    assert("stabilizer"@.len() == 10 && "stabilize"@.len() == 9 && "rewrite"@.len() == 7);
    assert("balanced"@.len() == 8);
}

} // verus!
