//! Compares a file after an edit with what was known of it before.
use std::collections::BTreeSet;
use vstd::prelude::*;

use crate::certainty_filter::CertaintyFilterState;
use crate::compdb::SemanticCompdbContextKind;
use crate::fuzzy_inference;
use crate::fuzzy_inference::{
    diagnostic_weights, fuzzy_relaxation_limits, PolicyCertainty, DEFAULT_TRUST,
};
use crate::lines;
use crate::lines::{extend_lines, line_hint, lines_of};
use crate::model::warn;
use crate::post_check;
use crate::post_check::{
    ClangDiagnosticEntry, ClangDiagnosticSeverity, ClangReport, CompdbContext, ConsensusTolerance,
    DiagnosticWeights, FailureKinds, PostEditCheckBaseline, PostEditCheckResult, PostEditChecker,
    PostEditFailureKind, TreeReport,
};
use crate::semantic_contract;
use crate::semantic_contract::snapshot::SnapshotView;
use crate::semantic_contract::{
    SemanticContractSnapshot, SemanticReadinessInput, Severity, TransitionPenalties,
};
use crate::text;
use crate::text::{chars_of, contains_part, copy_strings, decimal_of, starts_with, str_eq};

verus! {

broadcast use {
    vstd::std_specs::btree::group_btree_axioms,
    vstd::laws_cmp::group_laws_cmp,
};

/// How far an edit may go, as it was worked out for one file.
#[derive(Clone, Copy, Debug)]
pub struct CheckLimits {
    /// How much the share of syntax errors may grow, in billionths.
    pub tree_error_tolerance: u32,
    pub weights: DiagnosticWeights,
    pub consensus: ConsensusTolerance,
    pub relaxed_severe_limit: usize,
    pub relaxed_weight_limit: u32,
    pub ref_drop_tol: usize,
    pub scope_drift_tol: usize,
    pub identity_shift_tol: usize,
    pub penalties: TransitionPenalties,
}

/// How far a file is trusted in general.
pub open spec fn general_trust(certainty: Option<&PolicyCertainty>) -> u32 {
    match certainty {
        Some(c) => c.general_trust,
        None => DEFAULT_TRUST,
    }
}

/// The number of a kind of context among the limits of a relaxed check. Exact
/// options have none: their check is never relaxed.
pub open spec fn relaxation_number(kind: SemanticCompdbContextKind) -> u8 {
    match kind {
        SemanticCompdbContextKind::PairedSourceHeuristic => 0,
        SemanticCompdbContextKind::HeaderConsensus | SemanticCompdbContextKind::SourceConsensus =>
            1,
        _ => 2,
    }
}

/// Whether diagnostics are weighed as far as a file is trusted.
pub open spec fn are_weights(weights: DiagnosticWeights, trust: u32) -> bool {
    &&& weights.note == fuzzy_inference::severity_weight(0, trust)
    &&& weights.warning == fuzzy_inference::severity_weight(1, trust)
    &&& weights.error == fuzzy_inference::severity_weight(2, trust)
    &&& weights.fatal == fuzzy_inference::severity_weight(3, trust)
}

impl CheckLimits {
    /// How far an edit of a file may go: by the options that the compiler was
    /// given, the lines that were edited, and what is known of the file. How
    /// much the share of syntax errors may grow, and how far declarations may
    /// move, was worked out before.
    pub fn for_file(
        kind: SemanticCompdbContextKind,
        edited_lines: Option<&BTreeSet<usize>>,
        certainty: Option<&PolicyCertainty>,
        adaptive: &CertaintyFilterState,
        tree_error_tolerance: u32,
        identity_shift_tol: usize,
    ) -> (r: CheckLimits)
        requires
            adaptive.valid(),
        ensures
            r.tree_error_tolerance == tree_error_tolerance,
            r.identity_shift_tol == identity_shift_tol,
            are_weights(r.weights, general_trust(certainty)),
            ({
                let relaxed = fuzzy_inference::relaxation_limits(
                    relaxation_number(kind),
                    match certainty {
                        Some(c) => Some(*c),
                        None => None,
                    },
                );
                r.relaxed_severe_limit == relaxed.0 && r.relaxed_weight_limit == relaxed.1
            }),
            ({
                let (base_ref, base_scope) = if kind == SemanticCompdbContextKind::Exact {
                    (2usize, 1usize)
                } else {
                    (4usize, 3usize)
                };
                let tols = fuzzy_inference::transition_tols(
                    kind,
                    base_ref,
                    base_scope,
                    match certainty {
                        Some(c) => Some(*c),
                        None => None,
                    },
                    semantic_contract::transition::lines_view(edited_lines),
                );
                r.ref_drop_tol == tols.0 && r.scope_drift_tol == tols.1
            }),
            r.consensus == (match post_check::consensus_limits(kind, DEFAULT_TRUST) {
                Some(tolerance) => tolerance,
                None => ConsensusTolerance { delta_limit: 0, radius: 0 },
            }),
            adaptive.are_penalties(r.penalties),
    {
        let trust: u32 = match certainty {
            Some(c) => c.general_trust,
            None => DEFAULT_TRUST,
        };
        let number: u8 = match kind {
            SemanticCompdbContextKind::PairedSourceHeuristic => 0,
            SemanticCompdbContextKind::HeaderConsensus
            | SemanticCompdbContextKind::SourceConsensus => 1,
            _ => 2,
        };
        let (relaxed_severe_limit, relaxed_weight_limit) = fuzzy_relaxation_limits(
            number,
            certainty,
        );
        let (ref_drop_tol, scope_drift_tol) =
            PostEditChecker::semantic_transition_tolerances_for_context(
            kind,
            edited_lines,
            certainty,
        );
        let consensus = match PostEditChecker::consensus_tolerance(kind, DEFAULT_TRUST) {
            Some(tolerance) => tolerance,
            None => ConsensusTolerance { delta_limit: 0, radius: 0 },
        };
        CheckLimits {
            tree_error_tolerance,
            weights: diagnostic_weights(trust),
            consensus,
            relaxed_severe_limit,
            relaxed_weight_limit,
            ref_drop_tol,
            scope_drift_tol,
            identity_shift_tol,
            penalties: adaptive.transition_penalties(),
        }
    }
}

/// A check under way.
struct Findings {
    messages: Vec<String>,
    kinds: FailureKinds,
    culprits: BTreeSet<usize>,
}

/// The value of a check under way.
#[verifier::ext_equal]
pub ghost struct FindingsView {
    pub messages: Seq<Seq<char>>,
    pub kinds: Set<PostEditFailureKind>,
    pub culprits: Set<usize>,
}

impl View for Findings {
    type V = FindingsView;

    closed spec fn view(&self) -> FindingsView {
        FindingsView {
            messages: text::views(self.messages@),
            kinds: self.kinds@,
            culprits: self.culprits@,
        }
    }
}

impl FindingsView {
    /// One more message.
    pub open spec fn say(self, message: Seq<char>) -> FindingsView {
        FindingsView { messages: self.messages.push(message), ..self }
    }

    /// One more failure, with its message and lines.
    pub open spec fn fail(
        self,
        kind: PostEditFailureKind,
        message: Seq<char>,
        lines: Set<usize>,
    ) -> FindingsView {
        FindingsView {
            messages: self.messages.push(message),
            kinds: self.kinds.insert(kind),
            culprits: self.culprits.union(lines),
        }
    }
}

impl Findings {
    fn say(&mut self, message: String)
        ensures
            final(self)@ == old(self)@.say(message@),
    {
        warn(&mut self.messages, message);
        assert(self@ =~= old(self)@.say(message@));
    }

    fn fail(&mut self, kind: PostEditFailureKind, message: String, lines: &BTreeSet<usize>)
        ensures
            final(self)@ == old(self)@.fail(kind, message@, lines@),
    {
        self.kinds.insert(kind);
        warn(&mut self.messages, message);
        extend_lines(&mut self.culprits, lines);
        assert(self@ =~= old(self)@.fail(kind, message@, lines@));
    }
}

/// The share of errors that is still accepted.
pub open spec fn allowed_ratio(before: u32, tolerance: u32) -> int {
    if before + tolerance > post_check::FULL_RATIO {
        post_check::FULL_RATIO as int
    } else {
        before + tolerance
    }
}

/// The syntax tree: errors where there were none, and a larger share of
/// errors than tolerated, are failures.
pub open spec fn tree_step(
    was: FindingsView,
    fails: bool,
    tolerance: u32,
    baseline: PostEditCheckBaseline,
    tree: Result<TreeReport, String>,
) -> FindingsView {
    match tree {
        Ok(report) => {
            let first = if baseline.before_tree_error == Some(false) && report.has_error {
                was.fail(
                    PostEditFailureKind::TreeErrorRegressed,
                    "post-edit check failed: tree-sitter parse quality regressed"@,
                    report.error_lines@,
                )
            } else {
                was
            };
            if baseline.before_tree_error_ratio is Some && report.ratio.units > allowed_ratio(
                baseline.before_tree_error_ratio->Some_0.units,
                tolerance,
            ) {
                first.fail(
                    PostEditFailureKind::TreeErrorRatioRegressed,
                    "post-edit check failed: tree-sitter error ratio increased ("@
                        + baseline.before_tree_error_ratio->Some_0.shown@ + " -> "@
                        + report.ratio.shown@ + ")"@,
                    report.error_lines@,
                )
            } else {
                first
            }
        },
        Err(error) => if fails {
            was.fail(
                PostEditFailureKind::ParserUnavailableTree,
                "post-edit check failed: tree-sitter parser unavailable after edit: "@ + error@,
                Set::empty(),
            )
        } else {
            was.say("post-edit check warning (after tree): "@ + error@)
        },
    }
}

/// Whether a diagnostic is at least a warning.
pub open spec fn is_serious(entry: ClangDiagnosticEntry) -> bool {
    entry.severity is Warning || entry.severity is Error || entry.severity is Fatal
}

/// The lines of the first `n` diagnostics that are at least warnings.
pub open spec fn serious_lines(entries: Seq<ClangDiagnosticEntry>, n: int) -> Set<usize>
    decreases n,
{
    if n <= 0 {
        Set::empty()
    } else if is_serious(entries[n - 1]) && entries[n - 1].line > 0 {
        serious_lines(entries, n - 1).insert(entries[n - 1].line)
    } else {
        serious_lines(entries, n - 1)
    }
}

/// The lines that new diagnostics point to: those of new entries; failing
/// that, of new errors; failing that, of every warning and error.
pub open spec fn changed_lines(baseline: PostEditCheckBaseline, report: ClangReport) -> Set<usize> {
    let entries = if baseline.before_clang_diagnostic_entries is Some {
        post_check::new_lines(
            baseline.before_clang_diagnostic_entries->Some_0@,
            report.entries@,
            report.entries@.len() as int,
        )
    } else {
        Set::empty()
    };
    let errors = if baseline.before_clang_error_lines is Some {
        report.error_lines@.difference(baseline.before_clang_error_lines->Some_0@)
    } else {
        report.error_lines@
    };
    if entries.len() > 0 {
        entries
    } else if errors.len() > 0 {
        errors
    } else {
        serious_lines(report.entries@, report.entries@.len() as int)
    }
}

/// How far the diagnostics grew.
pub ghost struct DiagnosticDelta {
    pub lines: Set<usize>,
    pub weight: u32,
    pub severe: usize,
}

pub open spec fn no_delta() -> DiagnosticDelta {
    DiagnosticDelta { lines: Set::empty(), weight: 0, severe: 0 }
}

/// How far the weight of the diagnostics grew.
pub open spec fn weight_rise(from: u32, to: u32) -> u32 {
    if to > from {
        (to - from) as u32
    } else {
        0
    }
}

/// The growth of the diagnostics, where both numbers are known.
pub open spec fn diagnostic_delta(
    weights: DiagnosticWeights,
    baseline: PostEditCheckBaseline,
    clang: Option<Result<ClangReport, String>>,
) -> DiagnosticDelta {
    match (clang, baseline.before_clang_summary) {
        (Some(Ok(report)), Some(before)) => {
            let weight = weight_rise(
                post_check::weighted(before, weights),
                post_check::weighted(report.summary, weights),
            );
            let severe = semantic_contract::transition::rise(
                post_check::error_total(before),
                post_check::error_total(report.summary),
            );
            DiagnosticDelta {
                lines: if weight > 0 || severe > 0 {
                    changed_lines(baseline, report)
                } else {
                    Set::empty()
                },
                weight,
                severe,
            }
        },
        _ => no_delta(),
    }
}

/// How the growth of the weight is shown.
pub open spec fn shown_weights(
    weights: DiagnosticWeights,
    before: post_check::ClangDiagnosticSummary,
    after: post_check::ClangDiagnosticSummary,
) -> Seq<char> {
    text::decimal(post_check::weighted(before, weights) as nat) + " -> "@ + text::decimal(
        post_check::weighted(after, weights) as nat,
    ) + ", summary "@ + post_check::summary_label(before) + " -> "@ + post_check::summary_label(
        after,
    )
}

/// The compiler's diagnostics: that they grew is a failure, unless it can be
/// put down to guessed options.
pub open spec fn clang_step(
    was: FindingsView,
    fails: bool,
    context: CompdbContext,
    limits: CheckLimits,
    baseline: PostEditCheckBaseline,
    clang: Option<Result<ClangReport, String>>,
    edited: Option<Set<usize>>,
) -> FindingsView {
    match clang {
        None => was,
        Some(Err(error)) => if fails {
            was.fail(
                PostEditFailureKind::ParserUnavailableClang,
                "post-edit check failed: clang parser unavailable after edit: "@ + error@,
                Set::empty(),
            )
        } else {
            was.say("post-edit check warning (after clang): "@ + error@)
        },
        Some(Ok(report)) => match baseline.before_clang_summary {
            Some(before) => {
                let delta = diagnostic_delta(limits.weights, baseline, clang);
                if delta.weight == 0 && delta.severe == 0 {
                    was
                } else if post_check::tolerates(
                    context,
                    edited,
                    delta.lines,
                    delta.severe,
                    delta.weight,
                    limits.consensus,
                ) {
                    was.say(
                        "post-edit check warning: tolerated non-local clang diagnostic delta under consensus semantic context (weight "@
                            + shown_weights(limits.weights, before, report.summary) + ", lines="@
                            + lines::hint(delta.lines, 6) + ")"@,
                    )
                } else {
                    was.fail(
                        PostEditFailureKind::ClangDiagnosticsIncreased,
                        "post-edit check failed: clang diagnostic weight increased ("@
                            + shown_weights(limits.weights, before, report.summary) + ")"@,
                        delta.lines,
                    )
                }
            },
            None => if baseline.before_clang_error_count is Some && report.error_count
                > baseline.before_clang_error_count->Some_0 {
                was.fail(
                    PostEditFailureKind::ClangDiagnosticsIncreased,
                    "post-edit check failed: clang diagnostics increased ("@ + text::decimal(
                        baseline.before_clang_error_count->Some_0 as nat,
                    ) + " -> "@ + text::decimal(report.error_count as nat) + ")"@,
                    report.error_lines@,
                )
            } else {
                was
            },
        },
    }
}

/// Whether the semantic comparison is made: both sides are ready.
pub open spec fn compares(
    baseline: PostEditCheckBaseline,
    input: SemanticReadinessInput,
    after: SnapshotView,
) -> bool {
    baseline.before_semantic_ready && is_ready(input, after)
        && baseline.before_semantic_snapshot is Some
}

/// Whether a file is ready for semantic checks.
pub open spec fn is_ready(input: SemanticReadinessInput, after: SnapshotView) -> bool {
    !input.tree_unavailable && !input.clang_unavailable && after.identity_count == 0
        && after.mismatch_count == 0
}

/// What the edit did to the semantics, where both sides are ready.
pub open spec fn compared(
    limits: CheckLimits,
    baseline: PostEditCheckBaseline,
    after: SnapshotView,
    edited: Option<Set<usize>>,
    severity: Seq<char>,
) -> semantic_contract::transition::TransitionView {
    semantic_contract::transition::transition(
        baseline.before_semantic_snapshot->Some_0@,
        after,
        limits.ref_drop_tol,
        limits.scope_drift_tol,
        limits.identity_shift_tol,
        edited,
        limits.penalties,
        severity,
    )
}

/// The failures of a comparison.
pub open spec fn transition_kinds(t: semantic_contract::transition::TransitionView) -> Set<
    PostEditFailureKind,
> {
    Set::new(
        |kind: PostEditFailureKind|
            (t.identity_regressed && kind is SemanticIdentityRegressed) || (t.reference_regressed
                && kind is SemanticReferenceIntegrityRegressed) || (t.scope_regressed
                && kind is SemanticScopeDriftRegressed),
    )
}

/// The semantics: a file that was ready must stay so, and must not regress.
pub open spec fn semantic_step(
    was: FindingsView,
    limits: CheckLimits,
    baseline: PostEditCheckBaseline,
    input: SemanticReadinessInput,
    after: SnapshotView,
    edited: Option<Set<usize>>,
    severity: Seq<char>,
) -> FindingsView {
    let warned = FindingsView {
        messages: was.messages + semantic_contract::context::context_warnings(after),
        ..was
    };
    if baseline.before_semantic_ready {
        if !is_ready(input, after) {
            warned.fail(
                PostEditFailureKind::SemanticReadinessRegressed,
                "post-edit check failed: semantic readiness regressed after edit ("@
                    + semantic_contract::readiness::readiness_summary(
                    semantic_contract::readiness::readiness_reasons(input)
                        + semantic_contract::context::context_failures(after),
                ) + ")"@,
                Set::empty(),
            )
        } else if baseline.before_semantic_snapshot is Some {
            let t = compared(limits, baseline, after, edited, severity);
            FindingsView {
                messages: warned.messages + t.failures + t.warnings,
                kinds: warned.kinds.union(transition_kinds(t)),
                culprits: warned.culprits.union(t.culprits),
            }
        } else {
            warned
        }
    } else if baseline.semantic_readiness_note is Some {
        warned.say(
            "post-edit check warning: semantic integrity checks skipped; baseline readiness unmet ("@
                + baseline.semantic_readiness_note->Some_0@ + ")"@,
        )
    } else {
        warned
    }
}

/// Whether the growth of the diagnostics is forgiven: the options were
/// guessed, it is small, and nothing else regressed.
pub open spec fn relaxes(
    kinds: Set<PostEditFailureKind>,
    context: CompdbContext,
    limits: CheckLimits,
    edited: Option<Set<usize>>,
    delta: DiagnosticDelta,
) -> bool {
    &&& kinds.contains(PostEditFailureKind::ClangDiagnosticsIncreased)
    &&& !kinds.contains(PostEditFailureKind::SemanticReadinessRegressed)
    &&& !kinds.contains(PostEditFailureKind::SemanticIdentityRegressed)
    &&& !kinds.contains(PostEditFailureKind::SemanticReferenceIntegrityRegressed)
    &&& !kinds.contains(PostEditFailureKind::SemanticScopeDriftRegressed)
    &&& !kinds.contains(PostEditFailureKind::TreeErrorRegressed)
    &&& !kinds.contains(PostEditFailureKind::TreeErrorRatioRegressed)
    &&& !context.exact
    &&& delta.severe <= limits.relaxed_severe_limit
    &&& delta.weight <= limits.relaxed_weight_limit
    &&& match context.kind {
        SemanticCompdbContextKind::PairedSourceHeuristic => edited is Some && edited->Some_0.len()
            > 0,
        SemanticCompdbContextKind::HeaderConsensus
        | SemanticCompdbContextKind::SourceConsensus => post_check::tolerates(
            context,
            edited,
            delta.lines,
            delta.severe,
            delta.weight,
            limits.consensus,
        ),
        _ => false,
    }
}

/// Whether a message reports the growth of the diagnostics.
pub open spec fn reports_diagnostics(message: Seq<char>) -> bool {
    text::begins_with(message, "post-edit check failed: clang diagnostic weight increased"@)
        || text::begins_with(message, "post-edit check failed: clang diagnostics increased"@)
}

/// The messages that report something else.
pub open spec fn other_messages(messages: Seq<Seq<char>>) -> Seq<Seq<char>>
    decreases messages.len(),
{
    if messages.len() == 0 {
        Seq::empty()
    } else if reports_diagnostics(messages.last()) {
        other_messages(messages.drop_last())
    } else {
        other_messages(messages.drop_last()).push(messages.last())
    }
}

/// Takes the growth of the diagnostics back where it is forgiven.
pub open spec fn relax_step(
    was: FindingsView,
    context: CompdbContext,
    limits: CheckLimits,
    edited: Option<Set<usize>>,
    delta: DiagnosticDelta,
) -> FindingsView {
    if relaxes(was.kinds, context, limits, edited, delta) {
        FindingsView {
            messages: other_messages(was.messages).push(
                "post-edit check warning: relaxed clang diagnostic regression under consensus context because semantic invariants remained stable (lines="@
                    + lines::hint(delta.lines, 6) + ")"@,
            ),
            kinds: was.kinds.remove(PostEditFailureKind::ClangDiagnosticsIncreased),
            culprits: was.culprits.difference(delta.lines),
        }
    } else {
        was
    }
}

/// Whether a message stands against the edit by itself.
pub open spec fn is_blocking(message: Seq<char>) -> bool {
    text::has_part(message, "usage-role consistency"@) || text::has_part(
        message,
        "touch contract"@,
    )
}

/// Whether the edit is accepted.
pub open spec fn accepts(found: FindingsView) -> bool {
    found.kinds == Set::<PostEditFailureKind>::empty() && forall|i: int|
        0 <= i < found.messages.len() ==> !is_blocking(#[trigger] found.messages[i])
}

/// What the baseline says before anything is compared.
pub open spec fn start(baseline: PostEditCheckBaseline) -> FindingsView {
    FindingsView {
        messages: text::views(baseline.warnings@),
        kinds: Set::new(
            |kind: PostEditFailureKind|
                (baseline.before_tree_unavailable && kind is ParserUnavailableTree) || (
                baseline.before_clang_unavailable && kind is ParserUnavailableClang),
        ),
        culprits: Set::empty(),
    }
}

/// Which parsers are missing after the edit.
pub open spec fn after_input(
    tree: Result<TreeReport, String>,
    clang: Option<Result<ClangReport, String>>,
) -> SemanticReadinessInput {
    SemanticReadinessInput {
        tree_unavailable: tree is Err,
        clang_unavailable: clang is Some && clang->Some_0 is Err,
    }
}

/// All that is found of an edit.
pub open spec fn found(
    fails: bool,
    context: CompdbContext,
    limits: CheckLimits,
    baseline: PostEditCheckBaseline,
    tree: Result<TreeReport, String>,
    clang: Option<Result<ClangReport, String>>,
    after: SnapshotView,
    edited: Option<Set<usize>>,
    severity: Seq<char>,
) -> FindingsView {
    let first = tree_step(start(baseline), fails, limits.tree_error_tolerance, baseline, tree);
    let second = clang_step(first, fails, context, limits, baseline, clang, edited);
    let third = semantic_step(
        second,
        limits,
        baseline,
        after_input(tree, clang),
        after,
        edited,
        severity,
    );
    relax_step(
        third,
        context,
        limits,
        edited,
        diagnostic_delta(limits.weights, baseline, clang),
    )
}

/// The result of the check.
pub open spec fn validated(
    fails: bool,
    context: CompdbContext,
    limits: CheckLimits,
    baseline: PostEditCheckBaseline,
    tree: Result<TreeReport, String>,
    clang: Option<Result<ClangReport, String>>,
    after: SnapshotView,
    edited: Option<Set<usize>>,
    severity: Seq<char>,
) -> post_check::CheckView {
    let all = found(fails, context, limits, baseline, tree, clang, after, edited, severity);
    let t = compared(limits, baseline, after, edited, severity);
    let is_compared = compares(baseline, after_input(tree, clang), after);
    post_check::CheckView {
        accepted: accepts(all),
        messages: all.messages,
        kinds: all.kinds,
        culprits: all.culprits,
        identity_severity: if is_compared {
            t.identity_severity
        } else {
            Severity::none()
        },
        reference_severity: if is_compared {
            t.reference_severity
        } else {
            Severity::none()
        },
        scope_severity: if is_compared {
            t.scope_severity
        } else {
            Severity::none()
        },
    }
}

/// The result of the check that looks at the syntax alone.
pub open spec fn validated_structure(
    fails: bool,
    tolerance: u32,
    baseline: PostEditCheckBaseline,
    tree: Result<TreeReport, String>,
) -> post_check::CheckView {
    let all = tree_step(
        FindingsView {
            messages: text::views(baseline.warnings@),
            kinds: Set::empty(),
            culprits: Set::empty(),
        },
        fails,
        tolerance,
        baseline,
        tree,
    );
    post_check::CheckView {
        accepted: all.kinds == Set::<PostEditFailureKind>::empty(),
        messages: all.messages,
        kinds: all.kinds,
        culprits: all.culprits,
        identity_severity: Severity::none(),
        reference_severity: Severity::none(),
        scope_severity: Severity::none(),
    }
}

impl PostEditChecker {
    fn check_tree(
        &self,
        found: &mut Findings,
        tolerance: u32,
        baseline: &PostEditCheckBaseline,
        tree: &Result<TreeReport, String>,
    )
        ensures
            final(found)@ == tree_step(
                old(found)@,
                self.fail_on_parser_unavailable,
                tolerance,
                *baseline,
                *tree,
            ),
    {
        match tree {
            Ok(report) => {
                if report.has_error {
                    if let Some(before) = baseline.before_tree_error {
                        if !before {
                            found.fail(
                                PostEditFailureKind::TreeErrorRegressed,
                                "post-edit check failed: tree-sitter parse quality regressed".to_owned(),
                                &report.error_lines,
                            );
                        }
                    }
                }
                if let Some(before) = &baseline.before_tree_error_ratio {
                    let sum: u64 = before.units as u64 + tolerance as u64;
                    let allowed: u64 = if sum > post_check::FULL_RATIO as u64 {
                        post_check::FULL_RATIO as u64
                    } else {
                        sum
                    };
                    if report.ratio.units as u64 > allowed {
                        let mut message =
                            "post-edit check failed: tree-sitter error ratio increased (".to_owned();
                        message.append(before.shown.as_str());
                        message.append(" -> ");
                        message.append(report.ratio.shown.as_str());
                        message.append(")");
                        found.fail(
                            PostEditFailureKind::TreeErrorRatioRegressed,
                            message,
                            &report.error_lines,
                        );
                    }
                }
            },
            Err(error) => {
                if self.fail_on_parser_unavailable {
                    let mut message =
                        "post-edit check failed: tree-sitter parser unavailable after edit: ".to_owned();
                    message.append(error.as_str());
                    let none = BTreeSet::<usize>::new();
                    assert(none@ =~= Set::empty());
                    found.fail(PostEditFailureKind::ParserUnavailableTree, message, &none);
                } else {
                    let mut message = "post-edit check warning (after tree): ".to_owned();
                    message.append(error.as_str());
                    found.say(message);
                }
            },
        }
    }

    fn collect_serious_lines(entries: &[ClangDiagnosticEntry]) -> (r: BTreeSet<usize>)
        ensures
            r@ == serious_lines(entries@, entries@.len() as int),
    {
        let mut r = BTreeSet::<usize>::new();
        let mut i: usize = 0;
        assert(r@ =~= Set::empty());
        while i < entries.len()
            invariant
                i <= entries@.len(),
                r@ == serious_lines(entries@, i as int),
            decreases entries@.len() - i,
        {
            let entry = entries[i];
            let serious = match entry.severity {
                ClangDiagnosticSeverity::Warning
                | ClangDiagnosticSeverity::Error
                | ClangDiagnosticSeverity::Fatal => true,
                _ => false,
            };
            if serious && entry.line > 0 {
                r.insert(entry.line);
            }
            i += 1;
        }
        r
    }

    fn new_error_lines(baseline: &PostEditCheckBaseline, report: &ClangReport) -> (r: BTreeSet<
        usize,
    >)
        ensures
            r@ == if baseline.before_clang_error_lines is Some {
                report.error_lines@.difference(baseline.before_clang_error_lines->Some_0@)
            } else {
                report.error_lines@
            },
    {
        let mut r = BTreeSet::<usize>::new();
        assert(r@ =~= Set::empty());
        match &baseline.before_clang_error_lines {
            None => {
                extend_lines(&mut r, &report.error_lines);
                assert(r@ =~= report.error_lines@);
            },
            Some(before) => {
                let list = lines_of(&report.error_lines);
                let mut i: usize = 0;
                assert(r@ =~= list@.take(0).to_set().difference(before@));
                while i < list.len()
                    invariant
                        i <= list@.len(),
                        r@ == list@.take(i as int).to_set().difference(before@),
                    decreases list@.len() - i,
                {
                    proof {
                        lines::lemma_take_insert(list@, i as int);
                    }
                    if !before.contains(&list[i]) {
                        r.insert(list[i]);
                    }
                    assert(r@ =~= list@.take(i + 1).to_set().difference(before@));
                    i += 1;
                }
                assert(list@.take(list@.len() as int) =~= list@);
            },
        }
        r
    }

    fn collect_changed_lines(baseline: &PostEditCheckBaseline, report: &ClangReport) -> (r:
        BTreeSet<usize>)
        ensures
            r@ == changed_lines(*baseline, *report),
    {
        if let Some(before) = &baseline.before_clang_diagnostic_entries {
            let entries = Self::diagnostic_delta_lines(
                before.as_slice(),
                report.entries.as_slice(),
            );
            if entries.len() > 0 {
                return entries;
            }
        }
        let errors = Self::new_error_lines(baseline, report);
        if errors.len() > 0 {
            return errors;
        }
        Self::collect_serious_lines(report.entries.as_slice())
    }

    fn total_errors(summary: post_check::ClangDiagnosticSummary) -> (r: usize)
        ensures
            r == post_check::error_total(summary),
    {
        if summary.fatal > usize::MAX - summary.error {
            usize::MAX
        } else {
            summary.error + summary.fatal
        }
    }

    fn weights_text(
        weights: DiagnosticWeights,
        before: post_check::ClangDiagnosticSummary,
        after: post_check::ClangDiagnosticSummary,
    ) -> (r: String)
        ensures
            r@ == shown_weights(weights, before, after),
    {
        let mut r = decimal_of(Self::diagnostic_weighted_score(before, weights) as usize);
        r.append(" -> ");
        r.append(decimal_of(Self::diagnostic_weighted_score(after, weights) as usize).as_str());
        r.append(", summary ");
        r.append(Self::diagnostic_summary_label(before).as_str());
        r.append(" -> ");
        r.append(Self::diagnostic_summary_label(after).as_str());
        r
    }

    /// Compares the diagnostics, and tells how far they grew.
    fn check_clang(
        &self,
        found: &mut Findings,
        context: CompdbContext,
        limits: &CheckLimits,
        baseline: &PostEditCheckBaseline,
        clang: &Option<Result<ClangReport, String>>,
        edited_lines: Option<&BTreeSet<usize>>,
    ) -> (r: (BTreeSet<usize>, u32, usize))
        ensures
            final(found)@ == clang_step(
                old(found)@,
                self.fail_on_parser_unavailable,
                context,
                *limits,
                *baseline,
                *clang,
                semantic_contract::transition::lines_view(edited_lines),
            ),
            ({
                let delta = diagnostic_delta(limits.weights, *baseline, *clang);
                &&& r.0@ == delta.lines
                &&& r.1 == delta.weight
                &&& r.2 == delta.severe
            }),
    {
        let none = BTreeSet::<usize>::new();
        assert(none@ =~= Set::empty());
        match clang {
            None => (none, 0, 0),
            Some(Err(error)) => {
                if self.fail_on_parser_unavailable {
                    let mut message =
                        "post-edit check failed: clang parser unavailable after edit: ".to_owned();
                    message.append(error.as_str());
                    found.fail(PostEditFailureKind::ParserUnavailableClang, message, &none);
                } else {
                    let mut message = "post-edit check warning (after clang): ".to_owned();
                    message.append(error.as_str());
                    found.say(message);
                }
                (none, 0, 0)
            },
            Some(Ok(report)) => {
                match baseline.before_clang_summary {
                    Some(before) => {
                        let before_weight = Self::diagnostic_weighted_score(
                            before,
                            limits.weights,
                        );
                        let after_weight = Self::diagnostic_weighted_score(
                            report.summary,
                            limits.weights,
                        );
                        let weight: u32 = if after_weight > before_weight {
                            after_weight - before_weight
                        } else {
                            0
                        };
                        let old_errors = Self::total_errors(before);
                        let new_errors = Self::total_errors(report.summary);
                        let severe: usize = if new_errors > old_errors {
                            new_errors - old_errors
                        } else {
                            0
                        };
                        if weight == 0 && severe == 0 {
                            return (none, 0, 0);
                        }
                        let changed = Self::collect_changed_lines(baseline, report);
                        let shown = Self::weights_text(limits.weights, before, report.summary);
                        if Self::should_tolerate_nonlocal_diagnostic_delta_for_context(
                            context,
                            edited_lines,
                            &changed,
                            severe,
                            weight,
                            limits.consensus,
                        ) {
                            let mut message =
                                "post-edit check warning: tolerated non-local clang diagnostic delta under consensus semantic context (weight ".to_owned();
                            message.append(shown.as_str());
                            message.append(", lines=");
                            message.append(line_hint(&changed, 6).as_str());
                            message.append(")");
                            found.say(message);
                        } else {
                            let mut message =
                                "post-edit check failed: clang diagnostic weight increased (".to_owned();
                            message.append(shown.as_str());
                            message.append(")");
                            found.fail(
                                PostEditFailureKind::ClangDiagnosticsIncreased,
                                message,
                                &changed,
                            );
                        }
                        (changed, weight, severe)
                    },
                    None => {
                        if let Some(before) = baseline.before_clang_error_count {
                            if report.error_count > before {
                                let mut message =
                                    "post-edit check failed: clang diagnostics increased (".to_owned();
                                message.append(decimal_of(before).as_str());
                                message.append(" -> ");
                                message.append(decimal_of(report.error_count).as_str());
                                message.append(")");
                                found.fail(
                                    PostEditFailureKind::ClangDiagnosticsIncreased,
                                    message,
                                    &report.error_lines,
                                );
                            }
                        }
                        (none, 0, 0)
                    },
                }
            },
        }
    }

    fn extend_messages(found: &mut Findings, more: &[String])
        ensures
            final(found)@ == (FindingsView {
                messages: old(found)@.messages + text::views(more@),
                ..old(found)@
            }),
    {
        let mut copies = copy_strings(more);
        let ghost was = found.messages@;
        let ghost added = copies@;
        found.messages.append(&mut copies);
        assert(text::views(found.messages@) =~= text::views(was) + text::views(added));
        assert(found@ =~= FindingsView {
            messages: old(found)@.messages + text::views(more@),
            ..old(found)@
        });
    }

    /// Compares the semantics, and tells how much was lost.
    fn check_semantics(
        &self,
        found: &mut Findings,
        limits: &CheckLimits,
        baseline: &PostEditCheckBaseline,
        input: SemanticReadinessInput,
        after: &SemanticContractSnapshot,
        edited_lines: Option<&BTreeSet<usize>>,
        severity: &str,
    ) -> (r: (Severity, Severity, Severity))
        ensures
            final(found)@ == semantic_step(
                old(found)@,
                *limits,
                *baseline,
                input,
                after@,
                semantic_contract::transition::lines_view(edited_lines),
                severity@,
            ),
            ({
                let t = compared(
                    *limits,
                    *baseline,
                    after@,
                    semantic_contract::transition::lines_view(edited_lines),
                    severity@,
                );
                r == if compares(*baseline, input, after@) {
                    (t.identity_severity, t.reference_severity, t.scope_severity)
                } else {
                    (Severity::none(), Severity::none(), Severity::none())
                }
            }),
    {
        let clean = Severity { part: 0, whole: 1 };
        let assessment = self.semantic_contract.evaluate_context(after);
        Self::extend_messages(found, assessment.warnings.as_slice());
        let ghost warned = found@;
        let readiness = self.semantic_contract.evaluate_readiness_with_snapshot(
            input,
            Some(after),
        );
        if !baseline.before_semantic_ready {
            if let Some(note) = baseline.semantic_readiness_note() {
                let mut message =
                    "post-edit check warning: semantic integrity checks skipped; baseline readiness unmet (".to_owned();
                message.append(note);
                message.append(")");
                found.say(message);
            }
            return (clean, clean, clean);
        }
        if !readiness.ready {
            let mut message =
                "post-edit check failed: semantic readiness regressed after edit (".to_owned();
            message.append(readiness.summary().as_str());
            message.append(")");
            let none = BTreeSet::<usize>::new();
            assert(none@ =~= Set::empty());
            found.fail(PostEditFailureKind::SemanticReadinessRegressed, message, &none);
            return (clean, clean, clean);
        }
        match &baseline.before_semantic_snapshot {
            None => (clean, clean, clean),
            Some(before) => {
                let t = self.semantic_contract.evaluate_transition(
                    before,
                    after,
                    limits.ref_drop_tol,
                    limits.scope_drift_tol,
                    limits.identity_shift_tol,
                    edited_lines,
                    limits.penalties,
                    severity,
                );
                if t.identity_integrity_regressed {
                    found.kinds.insert(PostEditFailureKind::SemanticIdentityRegressed);
                }
                if t.reference_integrity_regressed {
                    found.kinds.insert(PostEditFailureKind::SemanticReferenceIntegrityRegressed);
                }
                if t.scope_integrity_regressed {
                    found.kinds.insert(PostEditFailureKind::SemanticScopeDriftRegressed);
                }
                assert(found.kinds@ =~= warned.kinds.union(transition_kinds(t@)));
                Self::extend_messages(found, t.failure_messages.as_slice());
                Self::extend_messages(found, t.warning_messages.as_slice());
                extend_lines(&mut found.culprits, &t.culprit_lines);
                assert(found@ =~= FindingsView {
                    messages: warned.messages + t@.failures + t@.warnings,
                    kinds: warned.kinds.union(transition_kinds(t@)),
                    culprits: warned.culprits.union(t@.culprits),
                });
                (t.identity_severity, t.reference_severity, t.scope_severity)
            },
        }
    }

    /// Tests whether the growth of the diagnostics is forgiven.
    pub fn should_relax_consensus_diagnostic_failure(
        context: CompdbContext,
        limits: &CheckLimits,
        edited_lines: Option<&BTreeSet<usize>>,
        failure_kinds: &FailureKinds,
        delta_lines: &BTreeSet<usize>,
        severe_delta: usize,
        weighted_delta: u32,
    ) -> (r: bool)
        ensures
            r == relaxes(
                failure_kinds@,
                context,
                *limits,
                semantic_contract::transition::lines_view(edited_lines),
                (DiagnosticDelta {
                    lines: delta_lines@,
                    weight: weighted_delta,
                    severe: severe_delta,
                }),
            ),
    {
        if !failure_kinds.contains(PostEditFailureKind::ClangDiagnosticsIncreased) {
            return false;
        }
        if failure_kinds.contains(PostEditFailureKind::SemanticReadinessRegressed)
            || failure_kinds.contains(PostEditFailureKind::SemanticIdentityRegressed)
            || failure_kinds.contains(PostEditFailureKind::SemanticReferenceIntegrityRegressed)
            || failure_kinds.contains(PostEditFailureKind::SemanticScopeDriftRegressed)
            || failure_kinds.contains(PostEditFailureKind::TreeErrorRegressed)
            || failure_kinds.contains(PostEditFailureKind::TreeErrorRatioRegressed) {
            return false;
        }
        if context.exact || severe_delta > limits.relaxed_severe_limit || weighted_delta
            > limits.relaxed_weight_limit {
            return false;
        }
        match context.kind {
            SemanticCompdbContextKind::PairedSourceHeuristic => match edited_lines {
                Some(edited) => edited.len() > 0,
                None => false,
            },
            SemanticCompdbContextKind::HeaderConsensus
            | SemanticCompdbContextKind::SourceConsensus =>
                Self::should_tolerate_nonlocal_diagnostic_delta_for_context(
                context,
                edited_lines,
                delta_lines,
                severe_delta,
                weighted_delta,
                limits.consensus,
            ),
            SemanticCompdbContextKind::Exact | SemanticCompdbContextKind::Absent => false,
        }
    }

    fn drop_diagnostic_messages(messages: &[String]) -> (r: Vec<String>)
        ensures
            text::views(r@) == other_messages(text::views(messages@)),
    {
        let weight = chars_of("post-edit check failed: clang diagnostic weight increased");
        let count = chars_of("post-edit check failed: clang diagnostics increased");
        let ghost all = text::views(messages@);
        let mut r: Vec<String> = Vec::new();
        let mut i: usize = 0;
        assert(text::views(r@) =~= Seq::empty());
        while i < messages.len()
            invariant
                i <= messages@.len(),
                all == text::views(messages@),
                weight@ == "post-edit check failed: clang diagnostic weight increased"@,
                count@ == "post-edit check failed: clang diagnostics increased"@,
                text::views(r@) == other_messages(all.take(i as int)),
            decreases messages@.len() - i,
        {
            let chars = chars_of(messages[i].as_str());
            assert(all.take(i + 1).drop_last() =~= all.take(i as int));
            assert(all.take(i + 1).last() == messages@[i as int]@);
            if !starts_with(chars.as_slice(), weight.as_slice()) && !starts_with(
                chars.as_slice(),
                count.as_slice(),
            ) {
                warn(&mut r, messages[i].clone());
            }
            i += 1;
        }
        assert(all.take(all.len() as int) =~= all);
        r
    }

    fn without_lines(lines: &BTreeSet<usize>, fewer: &BTreeSet<usize>) -> (r: BTreeSet<usize>)
        ensures
            r@ == lines@.difference(fewer@),
    {
        let list = lines_of(lines);
        let mut r = BTreeSet::<usize>::new();
        let mut i: usize = 0;
        assert(r@ =~= list@.take(0).to_set().difference(fewer@));
        while i < list.len()
            invariant
                i <= list@.len(),
                r@ == list@.take(i as int).to_set().difference(fewer@),
            decreases list@.len() - i,
        {
            proof {
                lines::lemma_take_insert(list@, i as int);
            }
            if !fewer.contains(&list[i]) {
                r.insert(list[i]);
            }
            assert(r@ =~= list@.take(i + 1).to_set().difference(fewer@));
            i += 1;
        }
        assert(list@.take(list@.len() as int) =~= list@);
        r
    }

    fn any_blocking(messages: &[String]) -> (r: bool)
        ensures
            r == exists|i: int|
                0 <= i < messages@.len() && is_blocking((#[trigger] messages@[i])@),
    {
        let mut i: usize = 0;
        while i < messages.len()
            invariant
                i <= messages@.len(),
                forall|k: int| 0 <= k < i ==> !is_blocking((#[trigger] messages@[k])@),
            decreases messages@.len() - i,
        {
            let message = messages[i].as_str();
            if contains_part(message, "usage-role consistency") || contains_part(
                message,
                "touch contract",
            ) {
                assert(is_blocking(messages@[i as int]@));
                return true;
            }
            i += 1;
        }
        false
    }

    /// Compares a file after an edit with what was known of it before.
    /// `severity` is the text in which the share of lost identities is shown.
    pub fn validate_with_baseline_for_edits(
        &self,
        context: CompdbContext,
        limits: &CheckLimits,
        baseline: &PostEditCheckBaseline,
        tree: &Result<TreeReport, String>,
        clang: &Option<Result<ClangReport, String>>,
        after: &SemanticContractSnapshot,
        edited_lines: Option<&BTreeSet<usize>>,
        severity: &str,
    ) -> (r: PostEditCheckResult)
        ensures
            r@ == validated(
                self.fail_on_parser_unavailable,
                context,
                *limits,
                *baseline,
                *tree,
                *clang,
                after@,
                semantic_contract::transition::lines_view(edited_lines),
                severity@,
            ),
    {
        let mut found = Findings {
            messages: copy_strings(baseline.warnings.as_slice()),
            kinds: FailureKinds::new(),
            culprits: BTreeSet::new(),
        };
        if baseline.before_tree_unavailable {
            found.kinds.insert(PostEditFailureKind::ParserUnavailableTree);
        }
        if baseline.before_clang_unavailable {
            found.kinds.insert(PostEditFailureKind::ParserUnavailableClang);
        }
        assert(found@ =~= start(*baseline));
        self.check_tree(&mut found, limits.tree_error_tolerance, baseline, tree);
        let (delta_lines, weight, severe) = self.check_clang(
            &mut found,
            context,
            limits,
            baseline,
            clang,
            edited_lines,
        );
        let input = SemanticReadinessInput {
            tree_unavailable: tree.is_err(),
            clang_unavailable: match clang {
                Some(Err(_)) => true,
                _ => false,
            },
        };
        assert(input == after_input(*tree, *clang));
        let (identity_severity, reference_severity, scope_severity) = self.check_semantics(
            &mut found,
            limits,
            baseline,
            input,
            after,
            edited_lines,
            severity,
        );
        let ghost third = found@;
        let ghost delta = diagnostic_delta(limits.weights, *baseline, *clang);
        assert(delta == DiagnosticDelta { lines: delta_lines@, weight, severe });
        if Self::should_relax_consensus_diagnostic_failure(
            context,
            limits,
            edited_lines,
            &found.kinds,
            &delta_lines,
            severe,
            weight,
        ) {
            found.kinds.remove(PostEditFailureKind::ClangDiagnosticsIncreased);
            found.messages = Self::drop_diagnostic_messages(found.messages.as_slice());
            found.culprits = Self::without_lines(&found.culprits, &delta_lines);
            let mut message =
                "post-edit check warning: relaxed clang diagnostic regression under consensus context because semantic invariants remained stable (lines=".to_owned();
            message.append(line_hint(&delta_lines, 6).as_str());
            message.append(")");
            warn(&mut found.messages, message);
        }
        assert(found@ =~= relax_step(
            third,
            context,
            *limits,
            semantic_contract::transition::lines_view(edited_lines),
            delta,
        ));
        let blocked = Self::any_blocking(found.messages.as_slice());
        let accepted = found.kinds.is_empty() && !blocked;
        proof {
            let all = found@.messages;
            assert(forall|i: int| 0 <= i < all.len() ==> #[trigger] all[i] == found.messages@[i]@);
            if blocked {
                let k = choose|k: int|
                    0 <= k < found.messages@.len() && is_blocking((#[trigger] found.messages@[k])@);
                assert(is_blocking(all[k]));
            }
            assert(accepted == accepts(found@));
        }
        PostEditCheckResult {
            accepted,
            messages: found.messages,
            failure_kinds: found.kinds,
            culprit_lines: found.culprits,
            identity_severity,
            reference_severity,
            scope_severity,
        }
    }

    /// Looks at the syntax alone.
    pub fn validate_structural_only(
        &self,
        tolerance: u32,
        baseline: &PostEditCheckBaseline,
        tree: &Result<TreeReport, String>,
    ) -> (r: PostEditCheckResult)
        ensures
            r@ == validated_structure(
                self.fail_on_parser_unavailable,
                tolerance,
                *baseline,
                *tree,
            ),
    {
        let mut found = Findings {
            messages: copy_strings(baseline.warnings.as_slice()),
            kinds: FailureKinds::new(),
            culprits: BTreeSet::new(),
        };
        assert(found@ =~= FindingsView {
            messages: text::views(baseline.warnings@),
            kinds: Set::empty(),
            culprits: Set::empty(),
        });
        self.check_tree(&mut found, tolerance, baseline, tree);
        PostEditCheckResult {
            accepted: found.kinds.is_empty(),
            messages: found.messages,
            failure_kinds: found.kinds,
            culprit_lines: found.culprits,
            identity_severity: Severity { part: 0, whole: 1 },
            reference_severity: Severity { part: 0, whole: 1 },
            scope_severity: Severity { part: 0, whole: 1 },
        }
    }

    /// Checks an edit of a file of which the parsers reported both sides. A
    /// text that did not change needs no check.
    pub fn validate_for_edits(
        &self,
        before_text: &str,
        after_text: &str,
        context: CompdbContext,
        limits: &CheckLimits,
        before_tree: Result<TreeReport, String>,
        before_clang: Option<Result<ClangReport, String>>,
        before: SemanticContractSnapshot,
        tree: &Result<TreeReport, String>,
        clang: &Option<Result<ClangReport, String>>,
        after: &SemanticContractSnapshot,
        edited_lines: Option<&BTreeSet<usize>>,
        severity: &str,
    ) -> (r: PostEditCheckResult)
        ensures
            before_text@ == after_text@ ==> r@ == post_check::clean_view(),
            before_text@ != after_text@ ==> exists|b: PostEditCheckBaseline|
                #![trigger validated(
                    self.fail_on_parser_unavailable,
                    context,
                    *limits,
                    b,
                    *tree,
                    *clang,
                    after@,
                    semantic_contract::transition::lines_view(edited_lines),
                    severity@,
                )]
                post_check::baseline::is_baseline(
                    b,
                    self.fail_on_parser_unavailable,
                    before_tree,
                    before_clang,
                    before@,
                ) && r@ == validated(
                    self.fail_on_parser_unavailable,
                    context,
                    *limits,
                    b,
                    *tree,
                    *clang,
                    after@,
                    semantic_contract::transition::lines_view(edited_lines),
                    severity@,
                ),
    {
        if str_eq(before_text, after_text) {
            return PostEditCheckResult::clean();
        }
        let baseline = self.build_baseline(before_tree, before_clang, before);
        self.validate_with_baseline_for_edits(
            context,
            limits,
            &baseline,
            tree,
            clang,
            after,
            edited_lines,
            severity,
        )
    }
}

/// A file of which the parsers report the same before and after has no
/// failure, whatever was edited.
pub proof fn lemma_same_reports_have_no_failure(
    fails: bool,
    context: CompdbContext,
    limits: CheckLimits,
    baseline: PostEditCheckBaseline,
    tree: TreeReport,
    clang: ClangReport,
    s: SnapshotView,
    edited: Option<Set<usize>>,
    severity: Seq<char>,
)
    requires
        post_check::baseline::is_baseline(baseline, fails, Ok(tree), Some(Ok(clang)), s),
        tree.ratio.units <= post_check::FULL_RATIO,
        s.identity_count == 0,
        s.mismatch_count == 0,
        s.is_countable(),
    ensures
        validated(
            fails,
            context,
            limits,
            baseline,
            Ok(tree),
            Some(Ok(clang)),
            s,
            edited,
            severity,
        ).kinds == Set::<PostEditFailureKind>::empty(),
{
    semantic_contract::transition::lemma_unchanged_is_accepted(
        s,
        limits.ref_drop_tol,
        limits.scope_drift_tol,
        limits.identity_shift_tol,
        edited,
        limits.penalties,
        severity,
    );
    let t = compared(limits, baseline, s, edited, severity);
    assert(start(baseline).kinds =~= Set::empty());
    assert(transition_kinds(t) =~= Set::empty());
    assert(Set::<PostEditFailureKind>::empty().union(transition_kinds(t)) =~= Set::empty());
}

/// Where the compiler's options are exact, no new diagnostic is forgiven.
pub proof fn lemma_exact_context_is_strict(
    context: CompdbContext,
    limits: CheckLimits,
    kinds: Set<PostEditFailureKind>,
    edited: Option<Set<usize>>,
    delta: DiagnosticDelta,
)
    requires
        context.exact,
    ensures
        !relaxes(kinds, context, limits, edited, delta),
        !post_check::tolerates(
            context,
            edited,
            delta.lines,
            delta.severe,
            delta.weight,
            limits.consensus,
        ),
{
}

proof fn lemma_kinds_stay(
    fails: bool,
    context: CompdbContext,
    limits: CheckLimits,
    baseline: PostEditCheckBaseline,
    tree: Result<TreeReport, String>,
    clang: Option<Result<ClangReport, String>>,
    after: SnapshotView,
    edited: Option<Set<usize>>,
    severity: Seq<char>,
    kind: PostEditFailureKind,
)
    requires
        kind != PostEditFailureKind::ClangDiagnosticsIncreased,
    ensures
        ({
            let r = validated(
                fails,
                context,
                limits,
                baseline,
                tree,
                clang,
                after,
                edited,
                severity,
            );
            let first = tree_step(
                start(baseline),
                fails,
                limits.tree_error_tolerance,
                baseline,
                tree,
            );
            let second = clang_step(first, fails, context, limits, baseline, clang, edited);
            let third = semantic_step(
                second,
                limits,
                baseline,
                after_input(tree, clang),
                after,
                edited,
                severity,
            );
            &&& r.kinds.contains(kind) == third.kinds.contains(kind)
            &&& second.kinds.contains(kind) ==> third.kinds.contains(kind)
            &&& first.kinds.contains(kind) ==> second.kinds.contains(kind)
        }),
{
}

proof fn lemma_culprits_stay(
    fails: bool,
    context: CompdbContext,
    limits: CheckLimits,
    baseline: PostEditCheckBaseline,
    tree: Result<TreeReport, String>,
    clang: Option<Result<ClangReport, String>>,
    after: SnapshotView,
    edited: Option<Set<usize>>,
    severity: Seq<char>,
    line: usize,
)
    requires
        context.exact,
    ensures
        ({
            let r = validated(
                fails,
                context,
                limits,
                baseline,
                tree,
                clang,
                after,
                edited,
                severity,
            );
            let first = tree_step(
                start(baseline),
                fails,
                limits.tree_error_tolerance,
                baseline,
                tree,
            );
            let second = clang_step(first, fails, context, limits, baseline, clang, edited);
            let third = semantic_step(
                second,
                limits,
                baseline,
                after_input(tree, clang),
                after,
                edited,
                severity,
            );
            &&& r.culprits.contains(line) == third.culprits.contains(line)
            &&& second.culprits.contains(line) ==> third.culprits.contains(line)
            &&& first.culprits.contains(line) ==> second.culprits.contains(line)
        }),
{
}

/// An edit with a failure of any kind is not accepted.
pub proof fn lemma_a_failure_is_refused(
    fails: bool,
    context: CompdbContext,
    limits: CheckLimits,
    baseline: PostEditCheckBaseline,
    tree: Result<TreeReport, String>,
    clang: Option<Result<ClangReport, String>>,
    after: SnapshotView,
    edited: Option<Set<usize>>,
    severity: Seq<char>,
    kind: PostEditFailureKind,
)
    ensures
        ({
            let r = validated(
                fails,
                context,
                limits,
                baseline,
                tree,
                clang,
                after,
                edited,
                severity,
            );
            r.kinds.contains(kind) ==> !r.accepted
        }),
        ({
            let r = validated_structure(fails, limits.tree_error_tolerance, baseline, tree);
            r.kinds.contains(kind) ==> !r.accepted
        }),
{
}

proof fn lemma_diagnostics_stay(
    fails: bool,
    context: CompdbContext,
    limits: CheckLimits,
    baseline: PostEditCheckBaseline,
    tree: Result<TreeReport, String>,
    clang: Option<Result<ClangReport, String>>,
    after: SnapshotView,
    edited: Option<Set<usize>>,
    severity: Seq<char>,
)
    requires
        clang_step(
            tree_step(start(baseline), fails, limits.tree_error_tolerance, baseline, tree),
            fails,
            context,
            limits,
            baseline,
            clang,
            edited,
        ).kinds.contains(PostEditFailureKind::ClangDiagnosticsIncreased),
        context.exact || edited is None || edited == Some(Set::<usize>::empty()) || context.kind
            == SemanticCompdbContextKind::Exact || context.kind
            == SemanticCompdbContextKind::Absent,
    ensures
        ({
            let r = validated(
                fails,
                context,
                limits,
                baseline,
                tree,
                clang,
                after,
                edited,
                severity,
            );
            &&& !r.accepted
            &&& r.kinds.contains(PostEditFailureKind::ClangDiagnosticsIncreased)
        }),
{
    let first = tree_step(start(baseline), fails, limits.tree_error_tolerance, baseline, tree);
    let second = clang_step(first, fails, context, limits, baseline, clang, edited);
    let third = semantic_step(
        second,
        limits,
        baseline,
        after_input(tree, clang),
        after,
        edited,
        severity,
    );
    assert(third.kinds.contains(PostEditFailureKind::ClangDiagnosticsIncreased));
    assert(!relaxes(
        third.kinds,
        context,
        limits,
        edited,
        diagnostic_delta(limits.weights, baseline, clang),
    ));
}

/// With exact options, an edit after which the compiler reports more errors
/// than before, or diagnostics that weigh more, is refused for it.
pub proof fn lemma_new_diagnostics_are_refused(
    fails: bool,
    context: CompdbContext,
    limits: CheckLimits,
    baseline: PostEditCheckBaseline,
    tree: Result<TreeReport, String>,
    report: ClangReport,
    after: SnapshotView,
    edited: Option<Set<usize>>,
    severity: Seq<char>,
)
    requires
        context.exact,
        baseline.before_clang_summary is Some,
        ({
            let was = baseline.before_clang_summary->Some_0;
            let now = report.summary;
            let w = limits.weights;
            ||| was.error + was.fatal < now.error + now.fatal && was.error + was.fatal < usize::MAX
            ||| {
                &&& was.note <= u32::MAX && was.warning <= u32::MAX
                &&& was.error <= u32::MAX && was.fatal <= u32::MAX
                &&& now.note <= u32::MAX && now.warning <= u32::MAX
                &&& now.error <= u32::MAX && now.fatal <= u32::MAX
                &&& was.note * w.note + was.warning * w.warning + was.error * w.error + was.fatal
                    * w.fatal < now.note * w.note + now.warning * w.warning + now.error * w.error
                    + now.fatal * w.fatal
                &&& was.note * w.note + was.warning * w.warning + was.error * w.error + was.fatal
                    * w.fatal < u32::MAX
            }
        }),
    ensures
        ({
            let r = validated(
                fails,
                context,
                limits,
                baseline,
                tree,
                Some(Ok(report)),
                after,
                edited,
                severity,
            );
            &&& !r.accepted
            &&& r.kinds.contains(PostEditFailureKind::ClangDiagnosticsIncreased)
        }),
{
    let was = baseline.before_clang_summary->Some_0;
    let now = report.summary;
    let delta = diagnostic_delta(limits.weights, baseline, Some(Ok(report)));
    assert(delta.weight > 0 || delta.severe > 0);
    lemma_diagnostics_stay(
        fails,
        context,
        limits,
        baseline,
        tree,
        Some(Ok(report)),
        after,
        edited,
        severity,
    );
}

/// Whatever the options, an edit with new diagnostics is refused for them
/// where no edited line is known, or where no options were guessed from other
/// files.
pub proof fn lemma_only_guesses_are_forgiven(
    fails: bool,
    context: CompdbContext,
    limits: CheckLimits,
    baseline: PostEditCheckBaseline,
    tree: Result<TreeReport, String>,
    report: ClangReport,
    after: SnapshotView,
    edited: Option<Set<usize>>,
    severity: Seq<char>,
)
    requires
        baseline.before_clang_summary is Some,
        ({
            let was = baseline.before_clang_summary->Some_0;
            let now = report.summary;
            was.error + was.fatal < now.error + now.fatal && was.error + was.fatal < usize::MAX
        }),
        context.exact || edited is None || edited == Some(Set::<usize>::empty()) || context.kind
            == SemanticCompdbContextKind::Exact || context.kind
            == SemanticCompdbContextKind::Absent,
    ensures
        ({
            let r = validated(
                fails,
                context,
                limits,
                baseline,
                tree,
                Some(Ok(report)),
                after,
                edited,
                severity,
            );
            &&& !r.accepted
            &&& r.kinds.contains(PostEditFailureKind::ClangDiagnosticsIncreased)
        }),
{
    let delta = diagnostic_delta(limits.weights, baseline, Some(Ok(report)));
    assert(delta.severe > 0);
    lemma_diagnostics_stay(
        fails,
        context,
        limits,
        baseline,
        tree,
        Some(Ok(report)),
        after,
        edited,
        severity,
    );
}

/// Under guessed options too, more new errors than the limits allow are
/// refused, where they are two or more, and so are two new errors in a file
/// whose syntax was sound and is no longer.
pub proof fn lemma_many_new_errors_are_refused(
    fails: bool,
    context: CompdbContext,
    limits: CheckLimits,
    baseline: PostEditCheckBaseline,
    tree: Result<TreeReport, String>,
    report: ClangReport,
    after: SnapshotView,
    edited: Option<Set<usize>>,
    severity: Seq<char>,
)
    requires
        baseline.before_clang_summary is Some,
        ({
            let was = baseline.before_clang_summary->Some_0;
            let now = report.summary;
            &&& now.error + now.fatal <= usize::MAX
            &&& was.error + was.fatal + 1 < now.error + now.fatal
            &&& was.error + was.fatal + limits.relaxed_severe_limit < now.error + now.fatal || (
            baseline.before_tree_error == Some(false) && tree is Ok && tree->Ok_0.has_error)
        }),
    ensures
        ({
            let r = validated(
                fails,
                context,
                limits,
                baseline,
                tree,
                Some(Ok(report)),
                after,
                edited,
                severity,
            );
            &&& !r.accepted
            &&& r.kinds.contains(PostEditFailureKind::ClangDiagnosticsIncreased)
        }),
{
    let was = baseline.before_clang_summary->Some_0;
    let now = report.summary;
    let delta = diagnostic_delta(limits.weights, baseline, Some(Ok(report)));
    assert(delta.severe == now.error + now.fatal - was.error - was.fatal);
    let first = tree_step(start(baseline), fails, limits.tree_error_tolerance, baseline, tree);
    let second = clang_step(first, fails, context, limits, baseline, Some(Ok(report)), edited);
    assert(second.kinds.contains(PostEditFailureKind::ClangDiagnosticsIncreased));
    let third = semantic_step(
        second,
        limits,
        baseline,
        after_input(tree, Some(Ok(report))),
        after,
        edited,
        severity,
    );
    assert(third.kinds.contains(PostEditFailureKind::ClangDiagnosticsIncreased));
    if baseline.before_tree_error == Some(false) && tree is Ok && tree->Ok_0.has_error {
        assert(first.kinds.contains(PostEditFailureKind::TreeErrorRegressed));
        assert(third.kinds.contains(PostEditFailureKind::TreeErrorRegressed));
    }
    assert(!relaxes(third.kinds, context, limits, edited, delta));
}

/// Without a summary from before, more errors than were counted are refused.
pub proof fn lemma_more_errors_than_counted_are_refused(
    fails: bool,
    context: CompdbContext,
    limits: CheckLimits,
    baseline: PostEditCheckBaseline,
    tree: Result<TreeReport, String>,
    report: ClangReport,
    after: SnapshotView,
    edited: Option<Set<usize>>,
    severity: Seq<char>,
)
    requires
        context.exact,
        baseline.before_clang_summary is None,
        baseline.before_clang_error_count is Some,
        report.error_count > baseline.before_clang_error_count->Some_0,
    ensures
        ({
            let r = validated(
                fails,
                context,
                limits,
                baseline,
                tree,
                Some(Ok(report)),
                after,
                edited,
                severity,
            );
            &&& !r.accepted
            &&& r.kinds.contains(PostEditFailureKind::ClangDiagnosticsIncreased)
            &&& report.error_lines@.subset_of(r.culprits)
        }),
{
    lemma_diagnostics_stay(
        fails,
        context,
        limits,
        baseline,
        tree,
        Some(Ok(report)),
        after,
        edited,
        severity,
    );
    assert forall|line: usize| report.error_lines@.contains(line) implies validated(
        fails,
        context,
        limits,
        baseline,
        tree,
        Some(Ok(report)),
        after,
        edited,
        severity,
    ).culprits.contains(line) by {
        lemma_culprits_stay(
        fails,
        context,
        limits,
        baseline,
        tree,
        Some(Ok(report)),
        after,
        edited,
        severity,
        line,
    );
    }
}

proof fn lemma_no_occurrence(entries: Seq<ClangDiagnosticEntry>, entry: ClangDiagnosticEntry)
    ensures
        post_check::occurrences(entries, entry) > 0 <==> entries.contains(entry),
    decreases entries.len(),
{
    if entries.len() > 0 {
        let head = entries.drop_last();
        lemma_no_occurrence(head, entry);
        if head.contains(entry) {
            let k = choose|k: int| 0 <= k < head.len() && head[k] == entry;
            assert(entries[k] == entry);
        }
        if entries.contains(entry) {
            let k = choose|k: int| 0 <= k < entries.len() && entries[k] == entry;
            if k < head.len() {
                assert(head[k] == entry);
            }
        }
        if entries.last() == entry {
            assert(entries[entries.len() - 1] == entry);
        }
    }
}

proof fn lemma_new_lines_finite(
    before: Seq<ClangDiagnosticEntry>,
    after: Seq<ClangDiagnosticEntry>,
    n: int,
)
    ensures
        post_check::new_lines(before, after, n).finite(),
    decreases n,
{
    if n > 0 {
        lemma_new_lines_finite(before, after, n - 1);
    }
}

/// With exact options, every line with a diagnostic that was not there before
/// is to blame for the errors that were added; and what the compiler says puts
/// the blame on no line without a diagnostic.
pub proof fn lemma_new_diagnostics_are_to_blame(
    fails: bool,
    context: CompdbContext,
    limits: CheckLimits,
    baseline: PostEditCheckBaseline,
    tree: Result<TreeReport, String>,
    report: ClangReport,
    after: SnapshotView,
    edited: Option<Set<usize>>,
    severity: Seq<char>,
    k: int,
)
    requires
        context.exact,
        baseline.before_clang_summary is Some,
        baseline.before_clang_diagnostic_entries is Some,
        ({
            let was = baseline.before_clang_summary->Some_0;
            let now = report.summary;
            was.error + was.fatal < now.error + now.fatal && was.error + was.fatal < usize::MAX
        }),
        0 <= k < report.entries@.len(),
        report.entries@[k].line > 0,
        !baseline.before_clang_diagnostic_entries->Some_0@.contains(report.entries@[k]),
    ensures
        validated(
            fails,
            context,
            limits,
            baseline,
            tree,
            Some(Ok(report)),
            after,
            edited,
            severity,
        ).culprits.contains(report.entries@[k].line),
        ({
            let second = clang_step(
                start(baseline),
                fails,
                context,
                limits,
                baseline,
                Some(Ok(report)),
                edited,
            );
            forall|line: usize| #[trigger]
                second.culprits.contains(line) ==> exists|i: int|
                    0 <= i < report.entries@.len() && (#[trigger] report.entries@[i]).line == line
        }),
{
    let old = baseline.before_clang_diagnostic_entries->Some_0@;
    let new = report.entries@;
    let entry = new[k];
    let delta = diagnostic_delta(limits.weights, baseline, Some(Ok(report)));
    assert(delta.severe > 0);
    lemma_no_occurrence(old, entry);
    lemma_no_occurrence(new, entry);
    assert(new.contains(entry));
    assert(post_check::is_new(old, new, new[k]));
    post_check::lemma_new_lines(old, new, new.len() as int, entry.line);
    let fresh = post_check::new_lines(old, new, new.len() as int);
    lemma_new_lines_finite(old, new, new.len() as int);
    assert(fresh.contains(entry.line));
    assert(fresh.len() > 0);
    assert(delta.lines == fresh);
    assert forall|line: usize| fresh.contains(line) implies exists|i: int|
        0 <= i < new.len() && (#[trigger] new[i]).line == line by {
        post_check::lemma_new_lines(old, new, new.len() as int, line);
    }
}

/// Fewer diagnostics of every severity draw no failure of the compiler.
pub proof fn lemma_fewer_diagnostics_are_no_failure(
    fails: bool,
    context: CompdbContext,
    limits: CheckLimits,
    baseline: PostEditCheckBaseline,
    tree: Result<TreeReport, String>,
    report: ClangReport,
    after: SnapshotView,
    edited: Option<Set<usize>>,
    severity: Seq<char>,
)
    requires
        !baseline.before_clang_unavailable,
        baseline.before_clang_summary is Some,
        ({
            let was = baseline.before_clang_summary->Some_0;
            let now = report.summary;
            &&& now.note <= was.note && was.note <= u32::MAX
            &&& now.warning <= was.warning && was.warning <= u32::MAX
            &&& now.error <= was.error && was.error <= u32::MAX
            &&& now.fatal <= was.fatal && was.fatal <= u32::MAX
        }),
    ensures
        ({
            let r = validated(
                fails,
                context,
                limits,
                baseline,
                tree,
                Some(Ok(report)),
                after,
                edited,
                severity,
            );
            &&& !r.kinds.contains(PostEditFailureKind::ClangDiagnosticsIncreased)
            &&& !r.kinds.contains(PostEditFailureKind::ParserUnavailableClang)
        }),
{
    let was = baseline.before_clang_summary->Some_0;
    let now = report.summary;
    let w = limits.weights;
    assert(now.note * w.note <= was.note * w.note) by (nonlinear_arith)
        requires
            now.note <= was.note,
    ;
    assert(now.warning * w.warning <= was.warning * w.warning) by (nonlinear_arith)
        requires
            now.warning <= was.warning,
    ;
    assert(now.error * w.error <= was.error * w.error) by (nonlinear_arith)
        requires
            now.error <= was.error,
    ;
    assert(now.fatal * w.fatal <= was.fatal * w.fatal) by (nonlinear_arith)
        requires
            now.fatal <= was.fatal,
    ;
    let delta = diagnostic_delta(w, baseline, Some(Ok(report)));
    assert(delta.weight == 0 && delta.severe == 0);
}

/// Errors in the syntax of a file that had none are refused, and their lines
/// are to blame; and so is a share of errors that grew by more than the
/// tolerance. The quick check says the same.
pub proof fn lemma_syntax_errors_are_refused(
    fails: bool,
    context: CompdbContext,
    limits: CheckLimits,
    baseline: PostEditCheckBaseline,
    report: TreeReport,
    clang: Option<Result<ClangReport, String>>,
    after: SnapshotView,
    edited: Option<Set<usize>>,
    severity: Seq<char>,
)
    ensures
        ({
            let r = validated(
                fails,
                context,
                limits,
                baseline,
                Ok(report),
                clang,
                after,
                edited,
                severity,
            );
            let quick = validated_structure(
                fails,
                limits.tree_error_tolerance,
                baseline,
                Ok(report),
            );
            let broke = baseline.before_tree_error == Some(false) && report.has_error;
            let was = baseline.before_tree_error_ratio->Some_0.units;
            let grew = baseline.before_tree_error_ratio is Some && report.ratio.units
                > was + limits.tree_error_tolerance;
            &&& broke ==> !r.accepted && r.kinds.contains(PostEditFailureKind::TreeErrorRegressed)
            &&& broke ==> !quick.accepted && quick.kinds.contains(
                PostEditFailureKind::TreeErrorRegressed,
            )
            &&& grew ==> !r.accepted && r.kinds.contains(
                PostEditFailureKind::TreeErrorRatioRegressed,
            )
            &&& grew ==> !quick.accepted && quick.kinds.contains(
                PostEditFailureKind::TreeErrorRatioRegressed,
            )
            &&& broke || grew ==> report.error_lines@.subset_of(quick.culprits)
            &&& (broke || grew) && context.exact ==> report.error_lines@.subset_of(r.culprits)
            &&& !report.has_error ==> !r.kinds.contains(PostEditFailureKind::TreeErrorRegressed)
                && !quick.kinds.contains(PostEditFailureKind::TreeErrorRegressed)
            &&& baseline.before_tree_error_ratio is Some && report.ratio.units <= was
                && report.ratio.units <= 1_000_000_000 ==> !r.kinds.contains(
                PostEditFailureKind::TreeErrorRatioRegressed,
            ) && !quick.kinds.contains(PostEditFailureKind::TreeErrorRatioRegressed)
        }),
{
    lemma_kinds_stay(
        fails,
        context,
        limits,
        baseline,
        Ok(report),
        clang,
        after,
        edited,
        severity,
        PostEditFailureKind::TreeErrorRegressed,
    );
    lemma_kinds_stay(
        fails,
        context,
        limits,
        baseline,
        Ok(report),
        clang,
        after,
        edited,
        severity,
        PostEditFailureKind::TreeErrorRatioRegressed,
    );
    lemma_a_failure_is_refused(
        fails,
        context,
        limits,
        baseline,
        Ok(report),
        clang,
        after,
        edited,
        severity,
        PostEditFailureKind::TreeErrorRegressed,
    );
    lemma_a_failure_is_refused(
        fails,
        context,
        limits,
        baseline,
        Ok(report),
        clang,
        after,
        edited,
        severity,
        PostEditFailureKind::TreeErrorRatioRegressed,
    );
    if context.exact {
        assert forall|line: usize| tree_step(
            start(baseline),
            fails,
            limits.tree_error_tolerance,
            baseline,
            Ok(report),
        ).culprits.contains(line) implies validated(
            fails,
            context,
            limits,
            baseline,
            Ok(report),
            clang,
            after,
            edited,
            severity,
        ).culprits.contains(line) by {
            lemma_culprits_stay(
        fails,
        context,
        limits,
        baseline,
        Ok(report),
        clang,
        after,
        edited,
        severity,
        line,
    );
        }
    }
}

/// A parser that is missing after the edit is a failure where it is set so,
/// and else none; and a file that was ready for semantic checks is so no
/// longer.
pub proof fn lemma_missing_parsers(
    fails: bool,
    context: CompdbContext,
    limits: CheckLimits,
    baseline: PostEditCheckBaseline,
    tree: Result<TreeReport, String>,
    clang: Option<Result<ClangReport, String>>,
    after: SnapshotView,
    edited: Option<Set<usize>>,
    severity: Seq<char>,
)
    ensures
        ({
            let r = validated(
                fails,
                context,
                limits,
                baseline,
                tree,
                clang,
                after,
                edited,
                severity,
            );
            let quick = validated_structure(fails, limits.tree_error_tolerance, baseline, tree);
            let no_clang = clang is Some && clang->Some_0 is Err;
            &&& r.kinds.contains(PostEditFailureKind::ParserUnavailableTree)
                == (baseline.before_tree_unavailable || (fails && tree is Err))
            &&& r.kinds.contains(PostEditFailureKind::ParserUnavailableClang)
                == (baseline.before_clang_unavailable || (fails && no_clang))
            &&& quick.kinds.contains(PostEditFailureKind::ParserUnavailableTree) == (fails && tree
                is Err)
            &&& fails && (tree is Err || no_clang) ==> !r.accepted
            &&& fails && tree is Err ==> !quick.accepted
            &&& !fails && tree is Err ==> quick.accepted
            &&& baseline.before_semantic_ready && (tree is Err || no_clang) ==> !r.accepted
                && r.kinds.contains(PostEditFailureKind::SemanticReadinessRegressed)
        }),
{
    lemma_a_failure_is_refused(
        fails,
        context,
        limits,
        baseline,
        tree,
        clang,
        after,
        edited,
        severity,
        PostEditFailureKind::ParserUnavailableTree,
    );
    lemma_a_failure_is_refused(
        fails,
        context,
        limits,
        baseline,
        tree,
        clang,
        after,
        edited,
        severity,
        PostEditFailureKind::ParserUnavailableClang,
    );
    lemma_a_failure_is_refused(
        fails,
        context,
        limits,
        baseline,
        tree,
        clang,
        after,
        edited,
        severity,
        PostEditFailureKind::SemanticReadinessRegressed,
    );
    lemma_kinds_stay(
        fails,
        context,
        limits,
        baseline,
        tree,
        clang,
        after,
        edited,
        severity,
        PostEditFailureKind::ParserUnavailableTree,
    );
    lemma_kinds_stay(
        fails,
        context,
        limits,
        baseline,
        tree,
        clang,
        after,
        edited,
        severity,
        PostEditFailureKind::ParserUnavailableClang,
    );
    lemma_kinds_stay(
        fails,
        context,
        limits,
        baseline,
        tree,
        clang,
        after,
        edited,
        severity,
        PostEditFailureKind::SemanticReadinessRegressed,
    );
}

/// A file whose semantics were sound must stay so: identities or uses that no
/// longer agree are refused. And nothing is compared in a file that was not
/// sound before.
pub proof fn lemma_unsound_semantics_are_refused(
    fails: bool,
    context: CompdbContext,
    limits: CheckLimits,
    baseline: PostEditCheckBaseline,
    tree: Result<TreeReport, String>,
    clang: Option<Result<ClangReport, String>>,
    after: SnapshotView,
    edited: Option<Set<usize>>,
    severity: Seq<char>,
)
    ensures
        ({
            let r = validated(
                fails,
                context,
                limits,
                baseline,
                tree,
                clang,
                after,
                edited,
                severity,
            );
            let no_clang = clang is Some && clang->Some_0 is Err;
            &&& r.kinds.contains(PostEditFailureKind::SemanticReadinessRegressed)
                == (baseline.before_semantic_ready && (after.identity_count > 0
                || after.mismatch_count > 0 || tree is Err || no_clang))
            &&& baseline.before_semantic_ready && (after.identity_count > 0
                || after.mismatch_count > 0) ==> !r.accepted
            &&& !baseline.before_semantic_ready ==> !r.kinds.contains(
                PostEditFailureKind::SemanticIdentityRegressed,
            ) && !r.kinds.contains(PostEditFailureKind::SemanticReferenceIntegrityRegressed)
                && !r.kinds.contains(PostEditFailureKind::SemanticScopeDriftRegressed)
        }),
{
    lemma_a_failure_is_refused(
        fails,
        context,
        limits,
        baseline,
        tree,
        clang,
        after,
        edited,
        severity,
        PostEditFailureKind::SemanticReadinessRegressed,
    );
    lemma_kinds_stay(
        fails,
        context,
        limits,
        baseline,
        tree,
        clang,
        after,
        edited,
        severity,
        PostEditFailureKind::SemanticReadinessRegressed,
    );
}

/// Where a file was and is ready for semantic checks, what regressed in its
/// semantics is refused, each under its own name, and its lines are to blame
/// where options are exact.
pub proof fn lemma_semantic_regressions_are_refused(
    fails: bool,
    context: CompdbContext,
    limits: CheckLimits,
    baseline: PostEditCheckBaseline,
    tree: TreeReport,
    clang: Option<Result<ClangReport, String>>,
    after: SnapshotView,
    edited: Option<Set<usize>>,
    severity: Seq<char>,
)
    requires
        baseline.before_semantic_ready,
        baseline.before_semantic_snapshot is Some,
        after.identity_count == 0,
        after.mismatch_count == 0,
        clang is None || clang->Some_0 is Ok,
    ensures
        ({
            let r = validated(
                fails,
                context,
                limits,
                baseline,
                Ok(tree),
                clang,
                after,
                edited,
                severity,
            );
            let t = semantic_contract::transition::transition(
                baseline.before_semantic_snapshot->Some_0@,
                after,
                limits.ref_drop_tol,
                limits.scope_drift_tol,
                limits.identity_shift_tol,
                edited,
                limits.penalties,
                severity,
            );
            &&& r.kinds.contains(PostEditFailureKind::SemanticIdentityRegressed)
                == t.identity_regressed
            &&& r.kinds.contains(PostEditFailureKind::SemanticReferenceIntegrityRegressed)
                == t.reference_regressed
            &&& r.kinds.contains(PostEditFailureKind::SemanticScopeDriftRegressed)
                == t.scope_regressed
            &&& t.identity_regressed || t.reference_regressed || t.scope_regressed ==> !r.accepted
            &&& context.exact ==> t.culprits.subset_of(r.culprits)
            &&& r.identity_severity == t.identity_severity
            &&& r.reference_severity == t.reference_severity
            &&& r.scope_severity == t.scope_severity
        }),
{
    lemma_a_failure_is_refused(
        fails,
        context,
        limits,
        baseline,
        Ok(tree),
        clang,
        after,
        edited,
        severity,
        PostEditFailureKind::SemanticIdentityRegressed,
    );
    lemma_a_failure_is_refused(
        fails,
        context,
        limits,
        baseline,
        Ok(tree),
        clang,
        after,
        edited,
        severity,
        PostEditFailureKind::SemanticReferenceIntegrityRegressed,
    );
    lemma_a_failure_is_refused(
        fails,
        context,
        limits,
        baseline,
        Ok(tree),
        clang,
        after,
        edited,
        severity,
        PostEditFailureKind::SemanticScopeDriftRegressed,
    );
    lemma_kinds_stay(
        fails,
        context,
        limits,
        baseline,
        Ok(tree),
        clang,
        after,
        edited,
        severity,
        PostEditFailureKind::SemanticIdentityRegressed,
    );
    lemma_kinds_stay(
        fails,
        context,
        limits,
        baseline,
        Ok(tree),
        clang,
        after,
        edited,
        severity,
        PostEditFailureKind::SemanticReferenceIntegrityRegressed,
    );
    lemma_kinds_stay(
        fails,
        context,
        limits,
        baseline,
        Ok(tree),
        clang,
        after,
        edited,
        severity,
        PostEditFailureKind::SemanticScopeDriftRegressed,
    );
    if context.exact {
        let t = compared(limits, baseline, after, edited, severity);
        assert forall|line: usize| t.culprits.contains(line) implies validated(
            fails,
            context,
            limits,
            baseline,
            Ok(tree),
            clang,
            after,
            edited,
            severity,
        ).culprits.contains(line) by {
            lemma_culprits_stay(
        fails,
        context,
        limits,
        baseline,
        Ok(tree),
        clang,
        after,
        edited,
        severity,
        line,
    );
        }
    }
}

/// Where options were agreed on by other files, new errors near an edited line
/// are refused.
pub proof fn lemma_errors_near_edits_are_refused(
    fails: bool,
    context: CompdbContext,
    limits: CheckLimits,
    baseline: PostEditCheckBaseline,
    tree: Result<TreeReport, String>,
    report: ClangReport,
    after: SnapshotView,
    edited: Set<usize>,
    severity: Seq<char>,
    k: int,
    line: usize,
)
    requires
        context.kind == SemanticCompdbContextKind::HeaderConsensus || context.kind
            == SemanticCompdbContextKind::SourceConsensus,
        baseline.before_clang_summary is Some,
        baseline.before_clang_diagnostic_entries is Some,
        ({
            let was = baseline.before_clang_summary->Some_0;
            let now = report.summary;
            was.error + was.fatal < now.error + now.fatal && was.error + was.fatal < usize::MAX
        }),
        0 <= k < report.entries@.len(),
        report.entries@[k].line > 0,
        !baseline.before_clang_diagnostic_entries->Some_0@.contains(report.entries@[k]),
        edited.contains(line),
        line <= report.entries@[k].line + limits.consensus.radius,
        report.entries@[k].line <= line + limits.consensus.radius,
    ensures
        ({
            let r = validated(
                fails,
                context,
                limits,
                baseline,
                tree,
                Some(Ok(report)),
                after,
                Some(edited),
                severity,
            );
            &&& !r.accepted
            &&& r.kinds.contains(PostEditFailureKind::ClangDiagnosticsIncreased)
        }),
{
    let old = baseline.before_clang_diagnostic_entries->Some_0@;
    let new = report.entries@;
    let entry = new[k];
    let clang: Option<Result<ClangReport, String>> = Some(Ok(report));
    let delta = diagnostic_delta(limits.weights, baseline, clang);
    assert(delta.severe > 0);
    lemma_no_occurrence(old, entry);
    lemma_no_occurrence(new, entry);
    assert(new.contains(entry));
    assert(post_check::is_new(old, new, new[k]));
    post_check::lemma_new_lines(old, new, new.len() as int, entry.line);
    let fresh = post_check::new_lines(old, new, new.len() as int);
    lemma_new_lines_finite(old, new, new.len() as int);
    assert(fresh.contains(entry.line));
    assert(fresh.len() > 0);
    assert(delta.lines.contains(entry.line));
    assert(lines::near(entry.line, edited, limits.consensus.radius));
    assert(!post_check::tolerates(
        context,
        Some(edited),
        delta.lines,
        delta.severe,
        delta.weight,
        limits.consensus,
    ));
    let first = tree_step(start(baseline), fails, limits.tree_error_tolerance, baseline, tree);
    let second = clang_step(first, fails, context, limits, baseline, clang, Some(edited));
    assert(second.kinds.contains(PostEditFailureKind::ClangDiagnosticsIncreased));
    let third = semantic_step(
        second,
        limits,
        baseline,
        after_input(tree, clang),
        after,
        Some(edited),
        severity,
    );
    assert(third.kinds.contains(PostEditFailureKind::ClangDiagnosticsIncreased));
    assert(!relaxes(third.kinds, context, limits, Some(edited), delta));
}

/// An edit is accepted exactly where there is no failure and no message speaks
/// of the consistency of uses or of the touch contract.
pub proof fn lemma_when_an_edit_is_accepted(
    fails: bool,
    context: CompdbContext,
    limits: CheckLimits,
    baseline: PostEditCheckBaseline,
    tree: Result<TreeReport, String>,
    clang: Option<Result<ClangReport, String>>,
    after: SnapshotView,
    edited: Option<Set<usize>>,
    severity: Seq<char>,
)
    ensures
        ({
            let r = validated(
                fails,
                context,
                limits,
                baseline,
                tree,
                clang,
                after,
                edited,
                severity,
            );
            r.accepted <==> (forall|kind: PostEditFailureKind| !(#[trigger] r.kinds.contains(kind)))
                && forall|i: int|
                0 <= i < r.messages.len() ==> !text::has_part(
                    #[trigger] r.messages[i],
                    "usage-role consistency"@,
                ) && !text::has_part(r.messages[i], "touch contract"@)
        }),
{
    let r = validated(fails, context, limits, baseline, tree, clang, after, edited, severity);
    let all = found(fails, context, limits, baseline, tree, clang, after, edited, severity);
    assert(r.messages == all.messages && r.kinds == all.kinds && r.accepted == accepts(all));
    if forall|kind: PostEditFailureKind| !(#[trigger] r.kinds.contains(kind)) {
        assert(r.kinds =~= Set::empty());
    }
    assert forall|i: int| 0 <= i < all.messages.len() implies is_blocking(
        #[trigger] all.messages[i],
    ) == (text::has_part(all.messages[i], "usage-role consistency"@) || text::has_part(
        all.messages[i],
        "touch contract"@,
    )) by {}
    if accepts(all) {
        assert forall|i: int| 0 <= i < r.messages.len() implies !text::has_part(
            #[trigger] r.messages[i],
            "usage-role consistency"@,
        ) && !text::has_part(r.messages[i], "touch contract"@) by {
            assert(!is_blocking(all.messages[i]));
        }
    }
}

} // verus!
