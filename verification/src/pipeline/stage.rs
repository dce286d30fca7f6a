//! What becomes of a policy's result before it is set against those of other
//! policies.
use std::collections::BTreeSet;
use vstd::prelude::*;

use crate::catalog::PolicyCapabilities;
use crate::convergence::ConvergencePolicySignal;
use crate::edit_candidate::PolicyDecisionOutcome;
use crate::enforcement::Enforcement;
use crate::file_context::{SemanticFileContext, SemanticRegion, SemanticSummary};
use crate::gate_decision::{ConfidenceGateDecision, ConfidenceReasonCode};
use crate::lines::extend_lines;
use crate::model;
use crate::model::{warn, EditView, PolicyResult, ResultView};
use crate::pipeline::confidence;
use crate::pipeline::confidence::{
    apply_cluster_bias, apply_confidence_decision, ClusterEnforcementBias,
};
use crate::pipeline::edit_utils;
use crate::pipeline::edit_utils::{apply_edits_lenient, normalize_edit_coverage};
use crate::pipeline::impact;
use crate::pipeline::impact::{hash_symbols, SymbolHashes};
use crate::pipeline::semantic_impact;
use crate::pipeline::semantic_impact::{
    apply_semantic_mode, semantic_error_lines, signal_with_hashes, ConvergenceSignalInput,
    LineEvidence,
};
use crate::pipeline::suppression;
use crate::pipeline::suppression::{apply_scope_filter, keep_edits, suppress_lines_impl};
use crate::post_check::CompdbContext;
use crate::run_options::PolicyRunOptions;
use crate::semantic_contract::PolicyGuidanceMode;
use crate::suppression as directives;
use crate::suppression::PolicySuppression;
use crate::text;
use crate::text::{chars_of, decimal_of, starts_with, str_eq};

verus! {

broadcast use {
    vstd::std_specs::btree::group_btree_axioms,
    vstd::laws_cmp::group_laws_cmp,
};

/// What the semantics say of each line of a file.
#[derive(Debug)]
pub struct LineTable {
    /// The lines by their number.
    pub lines: Vec<LineEvidence>,
    /// What holds of any other line.
    pub outside: LineEvidence,
}

impl LineTable {
    pub open spec fn of(self, line: usize) -> LineEvidence {
        if line < self.lines@.len() {
            self.lines@[line as int]
        } else {
            self.outside
        }
    }

    fn get(&self, line: usize) -> (r: LineEvidence)
        ensures
            r == self.of(line),
    {
        if line < self.lines.len() {
            self.lines[line]
        } else {
            self.outside
        }
    }
}

/// What the semantics say of the lines of some edits.
pub open spec fn evidence_for(edits: Seq<EditView>, table: LineTable) -> Seq<LineEvidence> {
    edits.map_values(|e: EditView| table.of(e.line))
}

/// What is known of the file that a policy edits.
#[derive(Clone, Copy, Debug)]
pub struct StageContext<'a> {
    pub compdb: CompdbContext,
    /// Where the semantics are not known, there is no table.
    pub line_table: Option<&'a LineTable>,
    pub semantic: Option<&'a SemanticFileContext>,
    /// The lines that the syntax parser could not read.
    pub tree_error_lines: &'a BTreeSet<usize>,
}

/// What a policy may do.
#[derive(Clone, Copy, Debug)]
pub struct PreparedPolicyStage {
    pub capability: PolicyCapabilities,
    pub guidance_mode: PolicyGuidanceMode,
}

/// Whether a warning stops the run.
pub open spec fn is_fatal(warning: Seq<char>) -> bool {
    text::begins_with(warning, "fatal:"@)
}

/// The first of the first `n` warnings that stops the run.
pub open spec fn first_fatal(warnings: Seq<Seq<char>>, n: int) -> Option<Seq<char>>
    decreases n,
{
    if n <= 0 {
        None
    } else {
        match first_fatal(warnings, n - 1) {
            Some(w) => Some(w),
            None => if is_fatal(warnings[n - 1]) {
                Some(warnings[n - 1])
            } else {
                None
            },
        }
    }
}

/// A result whose text changed without an edit is taken back.
pub open spec fn tracked_only(
    before: Seq<char>,
    r: ResultView,
    guard: Seq<char>,
    policy: Seq<char>,
) -> ResultView {
    if r.edits.len() == 0 && r.text != before {
        ResultView {
            text: before,
            warnings: r.warnings.push(
                guard + ": reverted untracked text delta for '"@ + policy + "'"@,
            ),
            ..r
        }
    } else {
        r
    }
}

/// The lines that a policy must leave alone because they were not understood:
/// for one that rewrites symbols also those with compiler errors; for one that
/// cannot break the structure of code, none.
pub open spec fn excluded_lines(
    capability: PolicyCapabilities,
    regions: Seq<SemanticRegion>,
    tree_errors: Set<usize>,
) -> Set<usize> {
    if capability.semantic_rewrite {
        semantic_impact::error_region_lines(regions, regions.len() as int).union(tree_errors)
    } else if capability.structural_safe {
        Set::empty()
    } else {
        tree_errors
    }
}

/// A result without the edits of lines that were not understood. An edit that
/// names no line stays.
pub open spec fn understood(
    before: Seq<char>,
    r: ResultView,
    excluded: Set<usize>,
    policy: Seq<char>,
) -> ResultView {
    let kept = suppression::kept_edits(r.edits, excluded.remove(0));
    let dropped = r.edits.len() - kept.len();
    if dropped <= 0 {
        r
    } else {
        ResultView {
            text: if kept.len() == 0 {
                before
            } else {
                edit_utils::lenient_text(before, kept)
            },
            edits: kept,
            warnings: r.warnings.push(
                "understanding gate: suppressed "@ + text::decimal(dropped as nat)
                    + " edit(s) on parser-error line(s) for '"@ + policy + "'"@,
            ),
            ..r
        }
    }
}

/// A policy's result after the directives in the file and the scope of the
/// run.
pub open spec fn permitted(
    before: Seq<char>,
    r: ResultView,
    policy: Seq<char>,
    options: PolicyRunOptions,
    capability: PolicyCapabilities,
) -> ResultView {
    suppression::scoped(
        before,
        suppression::suppressed(before, r, directives::disabled(before, policy)),
        match options.allowed_edit_lines {
            Some(lines) => Some(lines@),
            None => None,
        },
        policy,
        options.retry_scope_stage,
        capability.semantic_rewrite,
    )
}

/// What is left of a permitted result: what the semantics allow, what is
/// tracked by edits, and what was understood.
pub open spec fn admitted(
    before: Seq<char>,
    r: ResultView,
    policy: Seq<char>,
    stage: PreparedPolicyStage,
    context: StageContext,
) -> ResultView {
    let safe = semantic_impact::semantically_guided(
        before,
        r,
        match context.line_table {
            Some(table) => Some(evidence_for(r.edits, *table)),
            None => None,
        },
        stage.capability,
        context.compdb,
        policy,
        stage.guidance_mode,
    );
    let held = tracked_only(
        before,
        edit_utils::covered(policy, before, safe),
        "policy output guard"@,
        policy,
    );
    understood(
        before,
        held,
        excluded_lines(
            stage.capability,
            match context.semantic {
                Some(s) => s.regions@,
                None => Seq::empty(),
            },
            context.tree_error_lines@,
        ),
        policy,
    )
}

fn find_fatal(warnings: &[String]) -> (r: Option<String>)
    ensures
        match r {
            Some(w) => first_fatal(text::views(warnings@), warnings@.len() as int) == Some(w@),
            None => first_fatal(text::views(warnings@), warnings@.len() as int) is None,
        },
{
    let prefix = chars_of("fatal:");
    let ghost all = text::views(warnings@);
    let mut i: usize = 0;
    while i < warnings.len()
        invariant
            i <= warnings@.len(),
            prefix@ == "fatal:"@,
            all == text::views(warnings@),
            first_fatal(all, i as int) is None,
        decreases warnings@.len() - i,
    {
        let chars = chars_of(warnings[i].as_str());
        assert(all[i as int] == warnings@[i as int]@);
        if starts_with(chars.as_slice(), prefix.as_slice()) {
            proof {
                lemma_fatal_stays(all, i + 1, all.len() as int);
            }
            return Some(warnings[i].clone());
        }
        i += 1;
    }
    None
}

proof fn lemma_fatal_stays(warnings: Seq<Seq<char>>, i: int, n: int)
    requires
        0 <= i <= n,
        first_fatal(warnings, i) is Some,
    ensures
        first_fatal(warnings, n) == first_fatal(warnings, i),
    decreases n - i,
{
    if i < n {
        lemma_fatal_stays(warnings, i, n - 1);
    }
}

/// Takes back a text that changed without an edit.
pub fn revert_untracked(before_text: &str, result: PolicyResult, guard: &str, policy_name: &str) -> (r:
    PolicyResult)
    ensures
        r@ == tracked_only(before_text@, result@, guard@, policy_name@),
{
    let mut result = result;
    let ghost was = result@;
    assert(was.edits.len() == result.edits@.len());
    if result.edits.len() == 0 && !str_eq(result.text.as_str(), before_text) {
        result.text = before_text.to_owned();
        let mut message = guard.to_owned();
        message.append(": reverted untracked text delta for '");
        message.append(policy_name);
        message.append("'");
        warn(&mut result.warnings, message);
        assert(result@ =~= ResultView {
            text: before_text@,
            warnings: was.warnings.push(message@),
            ..was
        });
    }
    result
}

fn collect_excluded(
    capability: &PolicyCapabilities,
    semantic: Option<&SemanticFileContext>,
    tree_errors: &BTreeSet<usize>,
) -> (r: BTreeSet<usize>)
    ensures
        r@ == excluded_lines(
            *capability,
            match semantic {
                Some(s) => s.regions@,
                None => Seq::empty(),
            },
            tree_errors@,
        ),
{
    let mut r = BTreeSet::<usize>::new();
    assert(r@ =~= Set::empty());
    if capability.semantic_rewrite {
        if let Some(s) = semantic {
            r = semantic_error_lines(s.regions.as_slice());
        }
        extend_lines(&mut r, tree_errors);
    } else if !capability.structural_safe {
        extend_lines(&mut r, tree_errors);
        assert(r@ =~= tree_errors@);
    }
    r
}

proof fn lemma_kept_fewer(e: Seq<EditView>, lines: Set<usize>)
    ensures
        suppression::kept_edits(e, lines).len() <= e.len(),
    decreases e.len(),
{
    if e.len() > 0 {
        lemma_kept_fewer(e.drop_last(), lines);
    }
}

fn apply_understanding_gate(
    before_text: &str,
    result: PolicyResult,
    excluded: BTreeSet<usize>,
    policy_name: &str,
) -> (r: PolicyResult)
    ensures
        r@ == understood(before_text@, result@, excluded@, policy_name@),
{
    let mut result = result;
    let mut excluded = excluded;
    let ghost was = result@;
    excluded.remove(&0);
    let kept = keep_edits(result.edits.as_slice(), &excluded);
    proof {
        lemma_kept_fewer(was.edits, excluded@);
        assert(was.edits.len() == result.edits@.len());
        assert(model::edit_views(kept@).len() == kept@.len());
    }
    let dropped = result.edits.len() - kept.len();
    if dropped == 0 {
        return result;
    }
    let mut message = "understanding gate: suppressed ".to_owned();
    message.append(decimal_of(dropped).as_str());
    message.append(" edit(s) on parser-error line(s) for '");
    message.append(policy_name);
    message.append("'");
    warn(&mut result.warnings, message);
    result.text = if kept.len() == 0 {
        before_text.to_owned()
    } else {
        apply_edits_lenient(before_text, kept.as_slice())
    };
    result.edits = kept;
    assert(result@ =~= understood(before_text@, was, excluded@.insert(0), policy_name@)) by {
        assert(excluded@.insert(0).remove(0) =~= excluded@);
    }
    result
}

/// Takes a policy's result through all that holds it to the file: directives,
/// scope, semantics, edits that track the text, and lines that were
/// understood. A fatal warning of the policy stops the run.
pub fn filter_policy_result(
    before_text: &str,
    result: PolicyResult,
    policy_name: &str,
    options: &PolicyRunOptions,
    stage: &PreparedPolicyStage,
    context: &StageContext<'_>,
) -> (r: Result<PolicyResult, String>)
    ensures
        ({
            let p = permitted(before_text@, result@, policy_name@, *options, stage.capability);
            match first_fatal(p.warnings, p.warnings.len() as int) {
                Some(w) => r is Err && r->Err_0@ == policy_name@ + ": "@ + w,
                None => r is Ok && r->Ok_0@ == admitted(
                    before_text@,
                    p,
                    policy_name@,
                    *stage,
                    *context,
                ),
            }
        }),
{
    let disabled = PolicySuppression::disabled_lines(before_text, policy_name);
    let result = suppress_lines_impl(before_text, result, &disabled);
    let allowed = match &options.allowed_edit_lines {
        Some(lines) => Some(lines),
        None => None,
    };
    let result = apply_scope_filter(
        before_text,
        result,
        allowed,
        policy_name,
        options.retry_scope_stage,
        &stage.capability,
    );
    assert(result@.warnings.len() == result.warnings@.len());
    if let Some(fatal) = find_fatal(result.warnings.as_slice()) {
        let mut error = policy_name.to_owned();
        error.append(": ");
        error.append(fatal.as_str());
        return Err(error);
    }
    let ghost p = result@;
    let result = match context.line_table {
        None => result,
        Some(table) => {
            let mut evidence: Vec<LineEvidence> = Vec::new();
            let mut i: usize = 0;
            while i < result.edits.len()
                invariant
                    i <= result.edits@.len(),
                    evidence@.len() == i,
                    forall|k: int|
                        0 <= k < i ==> #[trigger] evidence@[k] == table.of(result.edits@[k].line),
                decreases result.edits@.len() - i,
            {
                evidence.push(table.get(result.edits[i].line));
                i += 1;
            }
            assert(evidence@ =~= evidence_for(p.edits, *table));
            apply_semantic_mode(
                before_text,
                result,
                Some(evidence.as_slice()),
                &stage.capability,
                context.compdb,
                policy_name,
                stage.guidance_mode,
            )
        },
    };
    let result = normalize_edit_coverage(policy_name, before_text, result);
    let result = revert_untracked(before_text, result, "policy output guard", policy_name);
    let excluded = collect_excluded(
        &stage.capability,
        context.semantic,
        context.tree_error_lines,
    );
    Ok(apply_understanding_gate(before_text, result, excluded, policy_name))
}

/// How edits in the same surroundings fared before.
#[derive(Clone, Copy, Debug, PartialEq, Eq, Structural)]
pub struct ClusterControls {
    pub enforcement_bias: ClusterEnforcementBias,
    pub max_impact_radius_cap: Option<usize>,
}

/// How confidence in a policy's edits is weighed.
#[derive(Clone, Copy, Debug, PartialEq, Eq, Structural)]
pub struct ConfidenceInput {
    pub enabled: bool,
    /// Whether the policy has settings.
    pub has_settings: bool,
    /// The enforcement that they name.
    pub enforcement: Option<Enforcement>,
    pub default_enforcement: Enforcement,
    /// Whether the compiler's options for the file are known.
    pub has_semantic_compdb: bool,
    pub tree_parsed: bool,
    pub clang_parsed: bool,
}

/// Whether the confidence in a result is weighed at all.
pub open spec fn is_weighed(input: ConfidenceInput, r: ResultView) -> bool {
    input.has_settings && input.enabled && r.edits.len() > 0
}

/// The enforcement of a policy.
pub open spec fn base_enforcement(input: ConfidenceInput) -> Enforcement {
    match input.enforcement {
        Some(e) => e,
        None => input.default_enforcement,
    }
}

/// A policy that rewrites symbols draws a warning where the compiler did not
/// read the file.
pub open spec fn weighed_start(
    input: ConfidenceInput,
    capability: PolicyCapabilities,
    r: ResultView,
) -> ResultView {
    if capability.semantic_rewrite && input.has_semantic_compdb && input.tree_parsed
        && !input.clang_parsed {
        ResultView {
            warnings: r.warnings.push(
                "policy confidence mode downgraded to 'tree-sitter' due unavailable clang semantic context"@,
            ),
            ..r
        }
    } else {
        r
    }
}

/// Whether a decision is the one that the cluster's bias gives: the edits are
/// applied, and only their enforcement is moved.
pub open spec fn is_decision(
    d: ConfidenceGateDecision,
    base: Enforcement,
    bias: ClusterEnforcementBias,
) -> bool {
    &&& d.outcome == PolicyDecisionOutcome::Apply
    &&& d.score@ == "1.00"@
    &&& d.score_amount == 1_000_000_000
    &&& d.threshold@ == "0.00"@
    &&& d.base_enforcement == base
    &&& d.effective_enforcement == match bias {
        ClusterEnforcementBias::Neutral => base,
        ClusterEnforcementBias::Relax => confidence::relaxed(base),
        ClusterEnforcementBias::Harden => confidence::hardened(base),
    }
    &&& d.reason_codes@ == match bias {
        ClusterEnforcementBias::Neutral => seq![ConfidenceReasonCode::Stable],
        ClusterEnforcementBias::Relax => confidence::with_reason(
            seq![ConfidenceReasonCode::Stable],
            ConfidenceReasonCode::ClusterAdaptiveRelaxed,
        ),
        ClusterEnforcementBias::Harden => confidence::with_reason(
            seq![ConfidenceReasonCode::Stable],
            ConfidenceReasonCode::ClusterAdaptiveHardened,
        ),
    }
    &&& d.dropped_lines@ == Set::<usize>::empty()
}

/// A policy's result with what is known of it.
#[derive(Debug)]
pub struct ExecutedPolicyStage {
    pub result: PolicyResult,
    pub capability: PolicyCapabilities,
    pub context_cluster: u64,
    pub confidence: Option<ConfidenceGateDecision>,
    pub dropped_line_count: usize,
    pub convergence_signal: ConvergencePolicySignal,
}

/// Whether a stage is what its input gives.
pub open spec fn is_executed(
    x: ExecutedPolicyStage,
    before: Seq<char>,
    r: ResultView,
    policy: Seq<char>,
    capability: PolicyCapabilities,
    input: ConfidenceInput,
    controls: ClusterControls,
    context_cluster: u64,
) -> bool {
    &&& x.capability == capability
    &&& x.context_cluster == context_cluster
    &&& x.dropped_line_count == 0
    &&& x.confidence is Some <==> is_weighed(input, r)
    &&& match x.confidence {
        Some(d) => is_decision(d, base_enforcement(input), controls.enforcement_bias) && x.result@
            == confidence::decided(policy, before, weighed_start(input, capability, r), d),
        None => x.result@ == r,
    }
}

/// Weighs the confidence in a filtered result, and works out what it reaches.
/// The cluster and its controls are those of the result's edited lines.
pub fn execute_policy_stage(
    before_text: &str,
    filtered: PolicyResult,
    policy_name: &str,
    options: &PolicyRunOptions,
    capability: PolicyCapabilities,
    semantic: Option<&SemanticFileContext>,
    summary: SemanticSummary,
    input: ConfidenceInput,
    controls: ClusterControls,
    context_cluster: u64,
    base_rating: u16,
) -> (r: ExecutedPolicyStage)
    requires
        semantic_impact::symbols_fit(semantic),
    ensures
        is_executed(
            r,
            before_text@,
            filtered@,
            policy_name@,
            capability,
            input,
            controls,
            context_cluster,
        ),
        exists|hashes: SymbolHashes|
            semantic_impact::hashes_agree(semantic, hashes)
                && #[trigger] semantic_impact::is_signal_of(
                r.convergence_signal,
                r.result@.edits,
                impact::context_of(semantic),
                summary,
                options.previous_contract_failures@,
                capability,
                controls.max_impact_radius_cap,
                base_rating,
                hashes,
            ),
{
    let mut result = filtered;
    let ghost start = result@;
    let mut decision: Option<ConfidenceGateDecision> = None;
    assert(start.edits.len() == result.edits@.len());
    if input.has_settings && input.enabled && result.edits.len() > 0 {
        if capability.semantic_rewrite && input.has_semantic_compdb && input.tree_parsed
            && !input.clang_parsed {
            warn(
                &mut result.warnings,
                "policy confidence mode downgraded to 'tree-sitter' due unavailable clang semantic context".to_owned(),
            );
        }
        assert(result@ =~= weighed_start(input, capability, start));
        let base = match input.enforcement {
            Some(e) => e,
            None => input.default_enforcement,
        };
        let mut codes: Vec<ConfidenceReasonCode> = Vec::new();
        codes.push(ConfidenceReasonCode::Stable);
        assert(codes@ =~= seq![ConfidenceReasonCode::Stable]);
        let none = BTreeSet::<usize>::new();
        assert(none@ =~= Set::empty());
        let adjusted = apply_cluster_bias(
            ConfidenceGateDecision {
                outcome: PolicyDecisionOutcome::Apply,
                score: "1.00".to_owned(),
                score_amount: 1_000_000_000,
                threshold: "0.00".to_owned(),
                base_enforcement: base,
                effective_enforcement: base,
                reason_codes: codes,
                dropped_lines: none,
            },
            controls.enforcement_bias,
        );
        result = apply_confidence_decision(policy_name, before_text, result, &adjusted);
        decision = Some(adjusted);
    }
    let hashes = match semantic {
        Some(context) => hash_symbols(context),
        None => SymbolHashes { declarations: Vec::new(), references: Vec::new() },
    };
    let convergence_signal = signal_with_hashes(
        &ConvergenceSignalInput {
            edits: result.edits.as_slice(),
            semantic,
            summary,
            previous_contract_failures: options.previous_contract_failures.as_slice(),
            capability,
            cluster_radius_cap: controls.max_impact_radius_cap,
            base_rating,
        },
        &hashes,
    );
    let r = ExecutedPolicyStage {
        result,
        capability,
        context_cluster,
        confidence: decision,
        dropped_line_count: 0,
        convergence_signal,
    };
    assert(semantic_impact::is_signal_of(
        r.convergence_signal,
        r.result@.edits,
        impact::context_of(semantic),
        summary,
        options.previous_contract_failures@,
        capability,
        controls.max_impact_radius_cap,
        base_rating,
        hashes,
    ));
    r
}

/// A filtered result of which nothing was permitted leaves the text as it was.
pub proof fn lemma_nothing_tracked_nothing_changed(
    before: Seq<char>,
    r: ResultView,
    guard: Seq<char>,
    policy: Seq<char>,
)
    requires
        r.edits.len() == 0,
    ensures
        tracked_only(before, r, guard, policy).text == before,
{
}

/// A run is stopped by the first warning that begins with `fatal:`, and by no
/// other.
pub proof fn lemma_fatal_warnings_stop(warnings: Seq<Seq<char>>, n: int)
    requires
        0 <= n <= warnings.len(),
    ensures
        ({
            let fatal = |k: int|
                warnings[k].len() >= 6 && warnings[k].take(6) == "fatal:"@;
            match first_fatal(warnings, n) {
                Some(w) => exists|k: int|
                    0 <= k < n && #[trigger] warnings[k] == w && fatal(k) && forall|j: int|
                        0 <= j < k ==> !(#[trigger] fatal(j)),
                None => forall|j: int| 0 <= j < n ==> !(#[trigger] fatal(j)),
            }
        }),
    decreases n,
{
    reveal_strlit("fatal:");
    let fatal = |k: int| warnings[k].len() >= 6 && warnings[k].take(6) == "fatal:"@;
    if n > 0 {
        lemma_fatal_warnings_stop(warnings, n - 1);
        match first_fatal(warnings, n - 1) {
            Some(w) => {
                let k = choose|k: int|
                    0 <= k < n - 1 && #[trigger] warnings[k] == w && fatal(k) && forall|j: int|
                        0 <= j < k ==> !(#[trigger] fatal(j));
                assert(warnings[k] == w);
            },
            None => {
                if is_fatal(warnings[n - 1]) {
                    assert(warnings[n - 1] == first_fatal(warnings, n)->0);
                    assert(fatal(n - 1));
                } else {
                    assert(!fatal(n - 1));
                }
            },
        }
    }
}

/// No edit is left of a line that was not understood, and every other edit is.
pub proof fn lemma_misread_lines_are_left_alone(
    before: Seq<char>,
    r: ResultView,
    excluded: Set<usize>,
    policy: Seq<char>,
    e: EditView,
)
    ensures
        understood(before, r, excluded, policy).edits.contains(e) <==> r.edits.contains(e) && !(
        e.line > 0 && excluded.contains(e.line)),
        understood(before, r, excluded, policy).edits.len() == 0 && r.edits.len() > 0
            ==> understood(before, r, excluded, policy).text == before,
{
    let rest = excluded.remove(0);
    let kept = suppression::kept_edits(r.edits, rest);
    suppression::lemma_kept_edits_exactly(r.edits, rest, e);
    if r.edits.len() - kept.len() <= 0 {
        if r.edits.contains(e) {
            lemma_all_kept(r.edits, rest);
            assert(kept == r.edits);
        }
    }
}

proof fn lemma_all_kept(e: Seq<EditView>, disabled: Set<usize>)
    requires
        suppression::kept_edits(e, disabled).len() >= e.len(),
    ensures
        suppression::kept_edits(e, disabled) == e,
    decreases e.len(),
{
    if e.len() > 0 {
        let head = e.drop_last();
        suppression::lemma_kept_edits_exactly(head, disabled, e.last());
        lemma_all_kept(head, disabled);
        assert(head.push(e.last()) =~= e);
    } else {
        assert(suppression::kept_edits(e, disabled) =~= e);
    }
}

/// Which lines were not understood: for a policy that rewrites symbols those of
/// the regions with errors of the compiler and those that the parser could not
/// read; for one that cannot break the structure of code none; for any other
/// those that the parser could not read.
pub proof fn lemma_which_lines_were_misread(
    capability: PolicyCapabilities,
    regions: Seq<SemanticRegion>,
    tree_errors: Set<usize>,
    line: usize,
)
    ensures
        excluded_lines(capability, regions, tree_errors).contains(line) <==> {
            if capability.semantic_rewrite {
                tree_errors.contains(line) || exists|k: int|
                    0 <= k < regions.len() && (#[trigger] regions[k]).kind is Diagnostic
                        && regions[k].has_diagnostic_error && regions[k].start_line <= line <= regions[k].end_line
            } else {
                !capability.structural_safe && tree_errors.contains(line)
            }
        },
{
    semantic_impact::lemma_error_regions(regions, regions.len() as int, line);
}

/// A policy edits no line on which a directive switches it off, nor, in a retry,
/// one that is not allowed: whatever it proposed.
pub proof fn lemma_directives_are_obeyed(
    before: Seq<char>,
    r: ResultView,
    policy: Seq<char>,
    options: PolicyRunOptions,
    capability: PolicyCapabilities,
    k: int,
)
    requires
        options.allowed_edit_lines is None,
        0 <= k < permitted(before, r, policy, options, capability).edits.len(),
        directives::disabled(before, policy).finite(),
    ensures
        !directives::disabled(before, policy).contains(
            permitted(before, r, policy, options, capability).edits[k].line,
        ),
{
    let off = directives::disabled(before, policy);
    let edits = permitted(before, r, policy, options, capability).edits;
    if off.contains(edits[k].line) {
        assert(off.len() > 0);
        suppression::lemma_suppressed_edits(before, r, off);
        assert(!off.contains(edits[k].line));
    }
}

} // verus!
