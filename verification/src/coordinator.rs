//! Decides what becomes of a file: which passes are run, and which of them is
//! kept.
use std::collections::{BTreeMap, BTreeSet};
use vstd::prelude::*;

use crate::accuracy_gate;
use crate::accuracy_gate::{
    AccuracyGate, AccuracyGateConfig, AccuracyGateDecision, AccuracyGateFailure, AccuracyGateInput,
    AccuracyGateStatus,
};
use crate::catalog;
use crate::catalog::PolicyCapabilityMatrix;
use crate::compdb::SemanticCompdbContextKind;
use crate::line_text;
use crate::line_text::split_lines;
use crate::lines;
use crate::lines::{line_near, lines_of};
use crate::model;
use crate::model::{warn, Edit, EditView, PolicyResult, ResultView, Violation, ViolationView};
use crate::names::NameSet;
use crate::pipeline::run;
use crate::pipeline::run::{ExecutionView, PolicyExecutionTrace};
use crate::post_check::{
    CheckView, PostEditCheckBaseline, PostEditCheckResult, PostEditFailureKind,
};
use crate::run_options::{PolicyRunOptions, RetryScopeStage};
use crate::semantic_contract::snapshot::SnapshotView;
use crate::semantic_contract::SemanticContractSnapshot;
use crate::text;
use crate::text::{contains_part, decimal_of, str_eq};

verus! {

broadcast use {
    vstd::std_specs::btree::group_btree_axioms,
    vstd::laws_cmp::group_laws_cmp,
};

/// How many edits are made up for a text that changed without any.
pub const UNTRACKED_TEXT_DELTA_SYNTHESIS_CAP: usize = 256;

/// What a pass over a file gives.
#[derive(Debug)]
pub struct FormatPassResult {
    pub policy_result: PolicyResult,
    /// How often each two policies met.
    pub convergence_pairs: BTreeMap<(String, String), usize>,
    pub policy_traces: Vec<PolicyExecutionTrace>,
    pub accuracy_gate: Option<AccuracyGateDecision>,
}

/// What a file is checked for.
#[derive(Clone, Copy, Debug, PartialEq, Eq, Structural)]
pub struct RetryConfig {
    pub post_edit_check_enabled: bool,
    pub post_edit_fail_on_parser_unavailable: bool,
}

/// How an attempt on a file is remembered.
#[derive(Clone, Copy, Debug, PartialEq, Eq, Structural)]
pub enum ClusterOutcome {
    Accepted,
    Regressed,
    Reverted,
}

/// Decides what becomes of files.
#[derive(Clone, Copy, Debug, PartialEq, Eq, Structural)]
pub struct FormatterEngine {
    pub retry: RetryConfig,
    pub accuracy_gate: AccuracyGateConfig,
}

/// The edits that line by line lead from one text to another, for the first
/// `n` lines.
pub open spec fn line_by_line(
    b: Seq<Seq<char>>,
    a: Seq<Seq<char>>,
    policy: Seq<char>,
    n: int,
) -> Seq<EditView>
    decreases n,
{
    if n <= 0 {
        Seq::empty()
    } else {
        let rest = line_by_line(b, a, policy, n - 1);
        let left = line_or_empty(b, n - 1);
        let right = line_or_empty(a, n - 1);
        if left == right {
            rest
        } else {
            rest.push(EditView { policy, line: n as usize, before: left, after: right })
        }
    }
}

/// A line, or an empty one behind the end.
pub open spec fn line_or_empty(lines: Seq<Seq<char>>, i: int) -> Seq<char> {
    if 0 <= i < lines.len() {
        lines[i]
    } else {
        Seq::empty()
    }
}

/// The edits that line by line lead from one text to another.
pub open spec fn all_line_edits(before: Seq<char>, after: Seq<char>, policy: Seq<char>) -> Seq<
    EditView,
> {
    let b = line_text::lines_in(before);
    let a = line_text::lines_in(after);
    line_by_line(
        b,
        a,
        policy,
        if b.len() < a.len() {
            a.len() as int
        } else {
            b.len() as int
        },
    )
}

/// The policy to which untold changes are put down.
pub open spec fn fallback_policy(violations: Seq<ViolationView>) -> Seq<char> {
    if violations.len() > 0 {
        violations[0].policy
    } else {
        "retry_guard"@
    }
}

/// Whether a text changed without an edit.
pub open spec fn is_untold(input: Seq<char>, r: ResultView) -> bool {
    r.edits.len() == 0 && r.text != input
}

/// A result whose text changed without an edit gets the edits; where they are
/// too many, the text is taken back.
pub open spec fn told(input: Seq<char>, r: ResultView) -> ResultView {
    let edits = all_line_edits(input, r.text, fallback_policy(r.violations));
    if !is_untold(input, r) || edits.len() == 0 {
        r
    } else if edits.len() > UNTRACKED_TEXT_DELTA_SYNTHESIS_CAP {
        ResultView {
            text: input,
            warnings: r.warnings.push(
                "retry guard: discarded oversized untracked text delta ("@ + text::decimal(
                    edits.len(),
                ) + " line(s) > cap 256)"@,
            ),
            ..r
        }
    } else {
        ResultView {
            edits,
            warnings: r.warnings.push(
                "retry guard: synthesized "@ + text::decimal(edits.len())
                    + " edit(s) from untracked text delta"@,
            ),
            ..r
        }
    }
}

/// The first `n` of a list of warnings, each once and not if it is known.
pub open spec fn with_new(known: Seq<Seq<char>>, more: Seq<Seq<char>>, n: int) -> Seq<Seq<char>>
    decreases n,
{
    if n <= 0 {
        known
    } else {
        let rest = with_new(known, more, n - 1);
        if rest.contains(more[n - 1]) {
            rest
        } else {
            rest.push(more[n - 1])
        }
    }
}

/// The warnings of two lists, each once and in order.
pub open spec fn merged_warnings(a: Seq<Seq<char>>, b: Seq<Seq<char>>) -> Seq<Seq<char>> {
    with_new(with_new(Seq::empty(), a, a.len() as int), b, b.len() as int)
}

/// Whether an edit touches one of the lines.
pub open spec fn touches(e: EditView, lines: Set<usize>) -> bool {
    e.line != 0 && e.policy.len() > 0 && lines.contains(e.line)
}

/// The policies of the first `n` edits that touch one of the lines.
pub open spec fn touching_policies(edits: Seq<EditView>, lines: Set<usize>, n: int) -> Set<
    Seq<char>,
>
    decreases n,
{
    if n <= 0 {
        Set::empty()
    } else {
        let rest = touching_policies(edits, lines, n - 1);
        if touches(edits[n - 1], lines) {
            rest.insert(edits[n - 1].policy)
        } else {
            rest
        }
    }
}

/// Whether a symbol bears on a line: it is declared there, or first used there.
pub open spec fn bears_on(s: SnapshotView, line: usize, id: Seq<char>) -> bool {
    s.decl_ids_by_line.contains((line, id)) || (s.ref_first_line.dom().contains(id)
        && s.ref_first_line[id] == line)
}

/// Whether a line declares a symbol that bears on one of the culprit lines.
pub open spec fn is_origin(s: SnapshotView, culprits: Set<usize>, origin: usize) -> bool {
    exists|line: usize, id: Seq<char>|
        culprits.contains(line) && #[trigger] bears_on(s, line, id)
            && s.id_decl_lines.dom().contains(id) && s.id_decl_lines[id] == origin
}

/// The lines that declare the symbols of the culprit lines.
pub open spec fn origin_lines(s: SnapshotView, culprits: Set<usize>) -> Set<usize> {
    Set::new(|line: usize| is_origin(s, culprits, line))
}

/// The policies that are to blame for a failed check: those that edited the
/// culprit lines, and, where symbols or their uses regressed, those that edited
/// the declarations behind them.
pub open spec fn blamed(edits: Seq<EditView>, check: CheckView, before: Option<SnapshotView>) -> Set<
    Seq<char>,
> {
    let direct = touching_policies(edits, check.culprits, edits.len() as int);
    if before is Some && (check.kinds.contains(
        PostEditFailureKind::SemanticReferenceIntegrityRegressed,
    ) || check.kinds.contains(PostEditFailureKind::SemanticIdentityRegressed)) {
        direct.union(
            touching_policies(
                edits,
                origin_lines(before->Some_0, check.culprits),
                edits.len() as int,
            ),
        )
    } else {
        direct
    }
}

/// Whether an edit is of a policy that cannot break the structure of code.
pub open spec fn is_structural(e: EditView) -> bool {
    catalog::named_capabilities(e.policy).structural_safe && !catalog::named_capabilities(
        e.policy,
    ).semantic_rewrite
}

/// Whether the check can leave the semantics out.
pub open spec fn all_structural(edits: Seq<EditView>) -> bool {
    edits.len() > 0 && forall|i: int| 0 <= i < edits.len() ==> is_structural(#[trigger] edits[i])
}

/// Whether some edit is of a policy that rewrites symbols.
pub open spec fn any_rewrite(edits: Seq<EditView>) -> bool {
    exists|i: int|
        0 <= i < edits.len() && catalog::named_capabilities(
            (#[trigger] edits[i]).policy,
        ).semantic_rewrite
}

/// Whether a message only says that identities changed.
pub open spec fn is_rename_note(message: Seq<char>) -> bool {
    text::has_part(message, "semantic identity signature changed"@)
}

/// The messages of a check that are passed on: a rewrite of symbols changes
/// identities by design.
pub open spec fn passed_on(messages: Seq<Seq<char>>, rewrites: bool) -> Seq<Seq<char>>
    decreases messages.len(),
{
    if messages.len() == 0 {
        Seq::empty()
    } else if rewrites && is_rename_note(messages.last()) {
        passed_on(messages.drop_last(), rewrites)
    } else {
        passed_on(messages.drop_last(), rewrites).push(messages.last())
    }
}

/// What a check adds to the warnings. The check informs; it does not reject.
pub open spec fn check_warnings(check: CheckView, edits: Seq<EditView>) -> Seq<Seq<char>> {
    let heard = passed_on(check.messages, any_rewrite(edits));
    if check.accepted || check.kinds == Set::<PostEditFailureKind>::empty() {
        heard
    } else {
        heard.push(
            "post-edit check informational: acceptance_score=1.000, failure_kinds="@
                + crate::failure_kinds::shown_kinds(check.kinds),
        )
    }
}

/// How a pass is checked.
#[derive(Clone, Copy, Debug, PartialEq, Eq, Structural)]
pub enum PassStep {
    /// It is kept without a check.
    Keep,
    /// Its syntax is checked.
    CheckStructure,
    /// It is checked in full.
    CheckFull,
}

/// How a pass is checked. A first pass that changed nothing is kept, and so is
/// any where checks are off.
pub open spec fn pass_step(
    retry: RetryConfig,
    input: Seq<char>,
    r: ResultView,
    has_baseline: bool,
    first: bool,
) -> PassStep {
    if first && (r.text == input || !retry.post_edit_check_enabled) {
        PassStep::Keep
    } else if all_structural(r.edits) && has_baseline {
        PassStep::CheckStructure
    } else {
        PassStep::CheckFull
    }
}

/// What follows on a check.
#[derive(Debug)]
pub enum CheckStep {
    /// The pass is kept. How well it did is given in billionths.
    Keep { outcome: ClusterOutcome, score: u32 },
    /// A second pass is run without the policies that are to blame.
    RunAgain { options: PolicyRunOptions },
    /// The file is left as it was.
    Revert { attempts: usize, score: u32 },
}

/// The policies of a pass that had nothing to edit and are not to blame.
pub open spec fn idle_policies(
    traces: Seq<ExecutionView>,
    culprits: Set<Seq<char>>,
    n: int,
) -> Set<Seq<char>>
    decreases n,
{
    if n <= 0 {
        Set::empty()
    } else {
        let rest = idle_policies(traces, culprits, n - 1);
        let t = traces[n - 1];
        if t.candidate_line_count == 0 && !culprits.contains(t.policy) {
            rest.insert(t.policy)
        } else {
            rest
        }
    }
}

/// Whether these are the options of a second pass.
pub open spec fn is_second_pass(
    options: PolicyRunOptions,
    culprits: Set<Seq<char>>,
    idle: Set<Seq<char>>,
) -> bool {
    &&& text::views(options.blocked_policies@).to_set() == culprits
    &&& options.skip_zero_edit_policies is Some <==> idle.len() > 0
    &&& idle.len() > 0 ==> text::views(options.skip_zero_edit_policies->Some_0@).to_set() == idle
    &&& options.allowed_edit_lines is None
    &&& options.retry_scope_stage == RetryScopeStage::Full
    &&& options.previous_contract_failures@.len() == 0
    &&& !options.observation_only
}

/// Whether this step follows on a check.
pub open spec fn is_check_step(
    step: CheckStep,
    first: bool,
    accepted: bool,
    check: CheckView,
    edits: Seq<EditView>,
    traces: Seq<ExecutionView>,
    before: Option<SnapshotView>,
) -> bool {
    let culprits = blamed(edits, check, before);
    if accepted && first {
        step == (if check.accepted {
            CheckStep::Keep { outcome: ClusterOutcome::Accepted, score: 1_000_000_000u32 }
        } else {
            CheckStep::Keep { outcome: ClusterOutcome::Regressed, score: 500_000_000u32 }
        })
    } else if accepted {
        step == (if check.accepted {
            CheckStep::Keep { outcome: ClusterOutcome::Accepted, score: 850_000_000u32 }
        } else {
            CheckStep::Keep { outcome: ClusterOutcome::Accepted, score: 400_000_000u32 }
        })
    } else if !first {
        step == (CheckStep::Revert { attempts: 2usize, score: 250_000_000u32 })
    } else if culprits.len() == 0 {
        step == (CheckStep::Revert { attempts: 1usize, score: 250_000_000u32 })
    } else {
        step is RunAgain && is_second_pass(
            step->options,
            culprits,
            idle_policies(traces, culprits, traces.len() as int),
        )
    }
}

/// The message of a file that is left as it was.
pub open spec fn revert_message(attempts: usize) -> Seq<char> {
    "Post-edit parser check failed after retries; reverted file changes (attempts="@
        + text::decimal(attempts as nat) + ")"@
}

/// The result for a file that is left as it was.
pub open spec fn reverted(
    original: Seq<char>,
    failed: ResultView,
    warnings: Seq<Seq<char>>,
    attempts: usize,
) -> ResultView {
    ResultView {
        text: original,
        violations: failed.violations,
        edits: Seq::empty(),
        warnings: merged_warnings(
            warnings.push("post-edit check warning: "@ + revert_message(attempts)),
            failed.warnings,
        ),
        changed: false,
    }
}

/// What the accuracy gate is told of a pass that is kept.
pub open spec fn gate_input(
    r: ResultView,
    semantic_ready: bool,
    kind: SemanticCompdbContextKind,
) -> AccuracyGateInput {
    AccuracyGateInput {
        semantic_ready,
        attempted_edits: r.edits.len() as usize,
        attempted_violations: r.violations.len() as usize,
        accepted_edits: r.edits.len() as usize,
        semantic_context_kind: kind,
    }
}

/// A result with what the accuracy gate says of it.
pub open spec fn gated(r: ResultView, status: AccuracyGateStatus, summary: Seq<char>) -> ResultView {
    if status == AccuracyGateStatus::WarningOnly {
        ResultView {
            warnings: r.warnings.push(summary),
            violations: r.violations.push(
                ViolationView {
                    policy: "accuracy_gate"@,
                    message: "accuracy gate warning (fail-open rollout)"@,
                    line: 1,
                    column: Some(1usize),
                },
            ),
            ..r
        }
    } else {
        r
    }
}

/// What the check of a file's semantics asks for before the first pass.
pub open spec fn unmet_detail(note: Option<&str>) -> Seq<char> {
    match note {
        Some(n) => n@,
        None => "semantic baseline unavailable"@,
    }
}

/// The accuracy gate's input where nothing was tried.
pub open spec fn untried_input(kind: SemanticCompdbContextKind) -> AccuracyGateInput {
    AccuracyGateInput {
        semantic_ready: false,
        attempted_edits: 0,
        attempted_violations: 0,
        accepted_edits: 0,
        semantic_context_kind: kind,
    }
}

/// Whether the accuracy gate stops a file that is not ready.
pub open spec fn stops_unready(config: AccuracyGateConfig, kind: SemanticCompdbContextKind) -> bool {
    config.fail_closed && accuracy_gate::relaxation(
        kind,
        accuracy_gate::objections(config, untried_input(kind)),
    ) is None
}

impl FormatterEngine {
    pub fn new(retry: RetryConfig, accuracy_gate: AccuracyGateConfig) -> (r: FormatterEngine)
        ensures
            r.retry == retry,
            r.accuracy_gate == accuracy_gate,
    {
        FormatterEngine { retry, accuracy_gate }
    }

    /// Whether a file has to be looked at before it is edited.
    pub fn baseline_required(&self) -> (r: bool)
        ensures
            r == (self.retry.post_edit_check_enabled || self.accuracy_gate.semantic_required
                || self.accuracy_gate.enabled),
    {
        self.retry.post_edit_check_enabled || self.accuracy_gate.semantic_required
            || self.accuracy_gate.enabled
    }

    /// Holds a file to the demand that its semantics are known. Where they are
    /// not, the accuracy gate stops the file or warns.
    pub fn check_semantic_requirement(
        &self,
        path: &str,
        semantic_ready: bool,
        note: Option<&str>,
        semantic_context_kind: SemanticCompdbContextKind,
    ) -> (r: Result<Option<String>, AccuracyGateFailure>)
        ensures
            ({
                let demanded = self.accuracy_gate.semantic_required && !semantic_ready;
                match r {
                    Ok(None) => !demanded,
                    Ok(Some(warning)) => demanded && !stops_unready(
                        self.accuracy_gate,
                        semantic_context_kind,
                    ) && warning@ == "accuracy_gate warning: semantic_required unmet for "@ + path@
                        + " ("@ + unmet_detail(note) + ")"@,
                    Err(failure) => demanded && stops_unready(
                        self.accuracy_gate,
                        semantic_context_kind,
                    ) && failure.path@ == path@ && failure.kind is SemanticRequiredUnmet
                        && failure.kind->detail@ == unmet_detail(note)
                        && accuracy_gate::is_gate_decision(
                        failure.decision,
                        self.accuracy_gate,
                        untried_input(semantic_context_kind),
                    ),
                }
            }),
    {
        if !self.accuracy_gate.semantic_required || semantic_ready {
            return Ok(None);
        }
        let detail = match note {
            Some(note) => note,
            None => "semantic baseline unavailable",
        };
        let decision = AccuracyGate::evaluate(
            &self.accuracy_gate,
            AccuracyGateInput {
                semantic_ready: false,
                attempted_edits: 0,
                attempted_violations: 0,
                accepted_edits: 0,
                semantic_context_kind,
            },
        );
        proof {
            let reasons = accuracy_gate::objections(
                self.accuracy_gate,
                untried_input(semantic_context_kind),
            );
            assert(reasons.len() > 0);
        }
        if decision.status == AccuracyGateStatus::FailedClosed {
            return Err(AccuracyGateFailure::semantic_required_unmet(path, detail, decision));
        }
        let mut warning = "accuracy_gate warning: semantic_required unmet for ".to_owned();
        warning.append(path);
        warning.append(" (");
        warning.append(detail);
        warning.append(")");
        Ok(Some(warning))
    }

    /// The edits that line by line lead from one text to another.
    pub fn synthesize_line_edits(before: &str, after: &str, policy: &str) -> (r: Vec<Edit>)
        ensures
            model::edit_views(r@) == all_line_edits(before@, after@, policy@),
    {
        let b = split_lines(before);
        let a = split_lines(after);
        let ghost left = text::views(b@);
        let ghost right = text::views(a@);
        let n: usize = if b.len() < a.len() {
            a.len()
        } else {
            b.len()
        };
        let mut r: Vec<Edit> = Vec::new();
        let mut i: usize = 0;
        assert(model::edit_views(r@) =~= Seq::empty());
        proof {
            reveal_strlit("");
        }
        while i < n
            invariant
                i <= n,
                left == text::views(b@),
                right == text::views(a@),
                ""@.len() == 0,
                model::edit_views(r@) == line_by_line(left, right, policy@, i as int),
            decreases n - i,
        {
            let x = if i < b.len() {
                b[i].as_str()
            } else {
                ""
            };
            let y = if i < a.len() {
                a[i].as_str()
            } else {
                ""
            };
            assert(x@ =~= line_or_empty(left, i as int));
            assert(y@ =~= line_or_empty(right, i as int));
            if !str_eq(x, y) {
                let ghost was = r@;
                let edit = Edit {
                    policy: policy.to_owned(),
                    line: i + 1,
                    before: x.to_owned(),
                    after: y.to_owned(),
                };
                let ghost view = edit@;
                r.push(edit);
                assert(model::edit_views(r@) =~= model::edit_views(was).push(view));
            }
            i += 1;
        }
        r
    }

    /// Gives a text that changed without an edit its edits; where they are too
    /// many, takes it back and tells so.
    pub fn normalize_untracked_text_delta(input_text: &str, result: &mut PolicyResult) -> (r: bool)
        ensures
            final(result)@ == told(input_text@, old(result)@),
            r == (is_untold(input_text@, old(result)@) && all_line_edits(
                input_text@,
                old(result)@.text,
                fallback_policy(old(result)@.violations),
            ).len() > UNTRACKED_TEXT_DELTA_SYNTHESIS_CAP),
    {
        let ghost was = result@;
        assert(was.edits.len() == result.edits@.len());
        assert(was.violations.len() == result.violations@.len());
        if result.edits.len() > 0 || str_eq(result.text.as_str(), input_text) {
            return false;
        }
        let policy = if result.violations.len() > 0 {
            result.violations[0].policy.clone()
        } else {
            "retry_guard".to_owned()
        };
        assert(policy@ == fallback_policy(was.violations));
        let edits = Self::synthesize_line_edits(
            input_text,
            result.text.as_str(),
            policy.as_str(),
        );
        assert(model::edit_views(edits@).len() == edits@.len());
        let count = edits.len();
        if count == 0 {
            return false;
        }
        if count > UNTRACKED_TEXT_DELTA_SYNTHESIS_CAP {
            result.text = input_text.to_owned();
            let mut message = "retry guard: discarded oversized untracked text delta (".to_owned();
            message.append(decimal_of(count).as_str());
            message.append(" line(s) > cap 256)");
            warn(&mut result.warnings, message);
            assert(result@ =~= told(input_text@, was));
            return true;
        }
        result.edits = edits;
        let mut message = "retry guard: synthesized ".to_owned();
        message.append(decimal_of(count).as_str());
        message.append(" edit(s) from untracked text delta");
        warn(&mut result.warnings, message);
        assert(result@ =~= told(input_text@, was));
        false
    }

    fn add_new(known: &mut Vec<String>, more: &[String])
        ensures
            text::views(final(known)@) == with_new(
                text::views(old(known)@),
                text::views(more@),
                more@.len() as int,
            ),
    {
        let ghost start = text::views(known@);
        let ghost all = text::views(more@);
        let mut i: usize = 0;
        while i < more.len()
            invariant
                i <= more@.len(),
                all == text::views(more@),
                text::views(known@) == with_new(start, all, i as int),
            decreases more@.len() - i,
        {
            assert(all[i as int] == more@[i as int]@);
            if !text::list_contains(known.as_slice(), more[i].as_str()) {
                warn(known, more[i].clone());
            }
            i += 1;
        }
    }

    /// The warnings of two lists, each once and in order.
    pub fn dedup_warning_slices(first: &[String], second: &[String]) -> (r: Vec<String>)
        ensures
            text::views(r@) == merged_warnings(text::views(first@), text::views(second@)),
    {
        let mut r: Vec<String> = Vec::new();
        assert(text::views(r@) =~= Seq::empty());
        Self::add_new(&mut r, first);
        Self::add_new(&mut r, second);
        r
    }

    /// The policies of the edits that touch one of the lines.
    pub fn policies_touching_lines(edits: &[Edit], lines: &BTreeSet<usize>) -> (r: NameSet)
        ensures
            r@ == touching_policies(model::edit_views(edits@), lines@, edits@.len() as int),
    {
        let ghost all = model::edit_views(edits@);
        let mut r = NameSet::new();
        let mut i: usize = 0;
        proof {
            reveal_strlit("");
        }
        while i < edits.len()
            invariant
                i <= edits@.len(),
                all == model::edit_views(edits@),
                ""@.len() == 0,
                r@ == touching_policies(all, lines@, i as int),
            decreases edits@.len() - i,
        {
            let edit = &edits[i];
            assert(all[i as int] == edit@);
            let unnamed = str_eq(edit.policy.as_str(), "");
            proof {
                if edit.policy@.len() == 0 {
                    assert(edit.policy@ =~= ""@);
                }
            }
            if edit.line != 0 && !unnamed && lines.contains(&edit.line) {
                r = r.insert(edit.policy.as_str());
            }
            i += 1;
        }
        r
    }

    fn add_origin(
        found: &mut BTreeSet<usize>,
        snapshot: &SemanticContractSnapshot,
        id: &str,
    )
        ensures
            final(found)@ == if snapshot@.id_decl_lines.dom().contains(id@) {
                old(found)@.insert(snapshot@.id_decl_lines[id@])
            } else {
                old(found)@
            },
    {
        if let Some(line) = snapshot.identity.id_decl_lines.get(id) {
            found.insert(line);
        }
    }

    /// The lines that declare the symbols of the culprit lines.
    fn collect_origins(snapshot: &SemanticContractSnapshot, culprits: &BTreeSet<usize>) -> (r:
        BTreeSet<usize>)
        ensures
            r@ == origin_lines(snapshot@, culprits@),
    {
        let ghost s = snapshot@;
        let mut found = BTreeSet::<usize>::new();
        let places = &snapshot.identity.decl_ids_by_line;
        let ghost all = crate::semantic_contract::snapshot::line_names(places@);
        let mut i: usize = 0;
        while i < places.len()
            invariant
                i <= places@.len(),
                s == snapshot@,
                places == snapshot.identity.decl_ids_by_line,
                all == crate::semantic_contract::snapshot::line_names(places@),
                forall|line: usize| #[trigger]
                    found@.contains(line) ==> is_origin(s, culprits@, line),
                forall|k: int|
                    #![trigger all[k]]
                    0 <= k < i && culprits@.contains(all[k].0) && s.id_decl_lines.dom().contains(
                        all[k].1,
                    ) ==> found@.contains(s.id_decl_lines[all[k].1]),
            decreases places@.len() - i,
        {
            let place = &places[i];
            assert(all[i as int] == (place.line, place.name@));
            assert(all.to_set().contains(all[i as int]));
            if culprits.contains(&place.line) {
                let ghost was = found@;
                Self::add_origin(&mut found, snapshot, place.name.as_str());
                proof {
                    if s.id_decl_lines.dom().contains(place.name@) {
                        assert(bears_on(s, place.line, place.name@));
                        assert(is_origin(s, culprits@, s.id_decl_lines[place.name@]));
                    }
                }
            }
            i += 1;
        }
        let uses = &snapshot.identity.ref_first_line;
        let n = uses.len();
        let ghost ids = uses.names();
        let mut j: usize = 0;
        while j < n
            invariant
                j <= n,
                n == ids.len(),
                s == snapshot@,
                uses == snapshot.identity.ref_first_line,
                ids == uses.names(),
                ids.to_set() == s.ref_first_line.dom(),
                forall|line: usize| #[trigger]
                    found@.contains(line) ==> is_origin(s, culprits@, line),
                forall|k: int|
                    #![trigger all[k]]
                    0 <= k < all.len() && culprits@.contains(all[k].0)
                        && s.id_decl_lines.dom().contains(all[k].1) ==> found@.contains(
                        s.id_decl_lines[all[k].1],
                    ),
                forall|k: int|
                    #![trigger ids[k]]
                    0 <= k < j && culprits@.contains(s.ref_first_line[ids[k]])
                        && s.id_decl_lines.dom().contains(ids[k]) ==> found@.contains(
                        s.id_decl_lines[ids[k]],
                    ),
            decreases n - j,
        {
            let id = uses.name(j);
            assert(ids.to_set().contains(ids[j as int]));
            if let Some(line) = uses.get(id) {
                if culprits.contains(&line) {
                    Self::add_origin(&mut found, snapshot, id);
                    proof {
                        if s.id_decl_lines.dom().contains(id@) {
                            assert(bears_on(s, line, id@));
                            assert(is_origin(s, culprits@, s.id_decl_lines[id@]));
                        }
                    }
                }
            }
            j += 1;
        }
        proof {
            assert forall|origin: usize| is_origin(s, culprits@, origin) implies found@.contains(
                origin,
            ) by {
                let (line, id) = choose|line: usize, id: Seq<char>|
                    culprits@.contains(line) && #[trigger] bears_on(s, line, id)
                        && s.id_decl_lines.dom().contains(id) && s.id_decl_lines[id] == origin;
                if s.decl_ids_by_line.contains((line, id)) {
                    let k = choose|k: int| 0 <= k < all.len() && all[k] == (line, id);
                    assert(all[k] == (line, id));
                } else {
                    assert(ids.to_set().contains(id));
                    let k = choose|k: int| 0 <= k < ids.len() && ids[k] == id;
                    assert(ids[k] == id);
                }
            }
            assert(found@ =~= origin_lines(s, culprits@));
        }
        found
    }

    /// The policies that are to blame for a failed check.
    pub fn causal_culprit_policies(
        edits: &[Edit],
        check: &PostEditCheckResult,
        before_snapshot: Option<&SemanticContractSnapshot>,
    ) -> (r: NameSet)
        ensures
            r@ == blamed(
                model::edit_views(edits@),
                check@,
                match before_snapshot {
                    Some(s) => Some(s@),
                    None => None,
                },
            ),
    {
        let mut policies = Self::policies_touching_lines(edits, &check.culprit_lines);
        if !check.failure_kinds.contains(
            PostEditFailureKind::SemanticReferenceIntegrityRegressed,
        ) && !check.failure_kinds.contains(PostEditFailureKind::SemanticIdentityRegressed) {
            return policies;
        }
        let snapshot = match before_snapshot {
            Some(snapshot) => snapshot,
            None => {
                return policies;
            },
        };
        let origins = Self::collect_origins(snapshot, &check.culprit_lines);
        let more = Self::policies_touching_lines(edits, &origins);
        let ghost start = policies@;
        let n = more.len();
        let ghost names = more.names();
        let mut i: usize = 0;
        assert(policies@ =~= start.union(names.take(0).to_set()));
        while i < n
            invariant
                i <= n,
                n == names.len(),
                names == more.names(),
                names.no_duplicates(),
                policies@ == start.union(names.take(i as int).to_set()),
            decreases n - i,
        {
            policies = policies.insert(more.name(i));
            proof {
                crate::names::lemma_take_insert(names, i as int);
                assert(policies@ =~= start.union(names.take(i + 1).to_set()));
            }
            i += 1;
        }
        assert(names.take(n as int) =~= names);
        policies
    }

    fn only_structural(edits: &[Edit]) -> (r: bool)
        ensures
            r == all_structural(model::edit_views(edits@)),
    {
        let ghost all = model::edit_views(edits@);
        if edits.len() == 0 {
            return false;
        }
        let mut i: usize = 0;
        while i < edits.len()
            invariant
                i <= edits@.len(),
                all == model::edit_views(edits@),
                forall|k: int| 0 <= k < i ==> is_structural(#[trigger] all[k]),
            decreases edits@.len() - i,
        {
            assert(all[i as int] == edits@[i as int]@);
            let capability = PolicyCapabilityMatrix::for_policy(edits[i].policy.as_str());
            if !capability.structural_safe || capability.semantic_rewrite {
                assert(!is_structural(all[i as int]));
                return false;
            }
            i += 1;
        }
        true
    }

    fn has_rewrite(edits: &[Edit]) -> (r: bool)
        ensures
            r == any_rewrite(model::edit_views(edits@)),
    {
        let ghost all = model::edit_views(edits@);
        let mut i: usize = 0;
        while i < edits.len()
            invariant
                i <= edits@.len(),
                all == model::edit_views(edits@),
                forall|k: int|
                    0 <= k < i ==> !catalog::named_capabilities(
                        (#[trigger] all[k]).policy,
                    ).semantic_rewrite,
            decreases edits@.len() - i,
        {
            assert(all[i as int] == edits@[i as int]@);
            if PolicyCapabilityMatrix::for_policy(edits[i].policy.as_str()).semantic_rewrite {
                return true;
            }
            i += 1;
        }
        false
    }

    /// How a pass is checked.
    pub fn after_pass(
        &self,
        input_text: &str,
        result: &PolicyResult,
        has_baseline: bool,
        first: bool,
    ) -> (r: PassStep)
        ensures
            r == pass_step(self.retry, input_text@, result@, has_baseline, first),
    {
        if first && (str_eq(result.text.as_str(), input_text)
            || !self.retry.post_edit_check_enabled) {
            return PassStep::Keep;
        }
        if Self::only_structural(result.edits.as_slice()) && has_baseline {
            PassStep::CheckStructure
        } else {
            PassStep::CheckFull
        }
    }

    /// Hears what a check says of a pass. The check informs: every pass is
    /// accepted, with the full score in billionths.
    pub fn accept_pass_result(
        &self,
        result: &PolicyResult,
        check: &PostEditCheckResult,
        warnings: &mut Vec<String>,
    ) -> (r: Option<u32>)
        ensures
            r == Some(1_000_000_000u32),
            text::views(final(warnings)@) == text::views(old(warnings)@) + check_warnings(
                check@,
                result@.edits,
            ),
    {
        let rewrites = Self::has_rewrite(result.edits.as_slice());
        let ghost start = text::views(warnings@);
        let ghost all = text::views(check.messages@);
        let mut i: usize = 0;
        assert(text::views(warnings@) =~= start + passed_on(all.take(0), rewrites));
        while i < check.messages.len()
            invariant
                i <= check.messages@.len(),
                all == text::views(check.messages@),
                text::views(warnings@) == start + passed_on(all.take(i as int), rewrites),
            decreases check.messages@.len() - i,
        {
            assert(all.take(i + 1).drop_last() =~= all.take(i as int));
            assert(all.take(i + 1).last() == check.messages@[i as int]@);
            if !rewrites || !contains_part(
                check.messages[i].as_str(),
                "semantic identity signature changed",
            ) {
                warn(warnings, check.messages[i].clone());
            }
            assert(text::views(warnings@) =~= start + passed_on(all.take(i + 1), rewrites));
            i += 1;
        }
        assert(all.take(all.len() as int) =~= all);
        if !check.accepted && !check.failure_kinds.is_empty() {
            let mut message =
                "post-edit check informational: acceptance_score=1.000, failure_kinds=".to_owned();
            message.append(check.failure_kinds.render().as_str());
            warn(warnings, message);
        }
        assert(text::views(warnings@) =~= start + check_warnings(check@, result@.edits));
        Some(1_000_000_000)
    }

    fn collect_idle(traces: &[PolicyExecutionTrace], culprits: &NameSet) -> (r: NameSet)
        ensures
            r@ == idle_policies(
                run::execution_views(traces@),
                culprits@,
                traces@.len() as int,
            ),
    {
        let ghost all = run::execution_views(traces@);
        let mut r = NameSet::new();
        let mut i: usize = 0;
        while i < traces.len()
            invariant
                i <= traces@.len(),
                all == run::execution_views(traces@),
                r@ == idle_policies(all, culprits@, i as int),
            decreases traces@.len() - i,
        {
            let t = &traces[i];
            assert(all[i as int] == t@);
            if t.candidate_line_count == 0 && !culprits.contains(t.policy.as_str()) {
                r = r.insert(t.policy.as_str());
            }
            i += 1;
        }
        r
    }

    /// What follows on a check of the first or the second pass.
    pub fn after_check(
        &self,
        first: bool,
        accepted: bool,
        check: &PostEditCheckResult,
        pass: &FormatPassResult,
        before_snapshot: Option<&SemanticContractSnapshot>,
    ) -> (r: CheckStep)
        ensures
            is_check_step(
                r,
                first,
                accepted,
                check@,
                pass.policy_result@.edits,
                run::execution_views(pass.policy_traces@),
                match before_snapshot {
                    Some(s) => Some(s@),
                    None => None,
                },
            ),
    {
        if accepted {
            let (outcome, score) = if first {
                if check.accepted {
                    (ClusterOutcome::Accepted, 1_000_000_000)
                } else {
                    (ClusterOutcome::Regressed, 500_000_000)
                }
            } else if check.accepted {
                (ClusterOutcome::Accepted, 850_000_000)
            } else {
                (ClusterOutcome::Accepted, 400_000_000)
            };
            return CheckStep::Keep { outcome, score };
        }
        if !first {
            return CheckStep::Revert { attempts: 2, score: 250_000_000 };
        }
        let culprits = Self::causal_culprit_policies(
            pass.policy_result.edits.as_slice(),
            check,
            before_snapshot,
        );
        if culprits.len() == 0 {
            return CheckStep::Revert { attempts: 1, score: 250_000_000 };
        }
        let idle = Self::collect_idle(pass.policy_traces.as_slice(), &culprits);
        let skipped = if idle.len() == 0 {
            None
        } else {
            Some(idle.to_vec())
        };
        CheckStep::RunAgain {
            options: PolicyRunOptions {
                blocked_policies: culprits.to_vec(),
                skip_zero_edit_policies: skipped,
                ..PolicyRunOptions::default()
            },
        }
    }

    /// Puts the warnings of the run before those of a pass.
    pub fn merge_warnings(warnings: &[String], result: &mut PolicyResult)
        ensures
            final(result)@ == (ResultView {
                warnings: merged_warnings(text::views(warnings@), old(result)@.warnings),
                ..old(result)@
            }),
    {
        let ghost was = result@;
        result.warnings = Self::dedup_warning_slices(warnings, result.warnings.as_slice());
        assert(result@ =~= ResultView {
            warnings: merged_warnings(text::views(warnings@), was.warnings),
            ..was
        });
    }

    /// Leaves a file as it was. A setting that fails closed makes this an error.
    pub fn reverted_result(
        &self,
        path: &str,
        original_text: &str,
        failed_pass: FormatPassResult,
        warnings: Vec<String>,
        attempt_count: usize,
    ) -> (r: Result<FormatPassResult, String>)
        ensures
            match r {
                Err(message) => self.accuracy_gate.fail_closed && message@
                    == "accuracy gate fail-closed: post-edit validation failed after "@
                    + text::decimal(attempt_count as nat) + " attempt(s) for "@ + path@,
                Ok(result) => !self.accuracy_gate.fail_closed && result.policy_result@ == reverted(
                    original_text@,
                    failed_pass.policy_result@,
                    text::views(warnings@),
                    attempt_count,
                ) && result.convergence_pairs@ == Map::<(String, String), usize>::empty()
                    && result.policy_traces@.len() == 0 && result.accuracy_gate is None,
            },
    {
        if self.accuracy_gate.fail_closed {
            let mut message =
                "accuracy gate fail-closed: post-edit validation failed after ".to_owned();
            message.append(decimal_of(attempt_count).as_str());
            message.append(" attempt(s) for ");
            message.append(path);
            return Err(message);
        }
        let mut warnings = warnings;
        let mut message = "post-edit check warning: ".to_owned();
        let mut reason =
            "Post-edit parser check failed after retries; reverted file changes (attempts=".to_owned();
        reason.append(decimal_of(attempt_count).as_str());
        reason.append(")");
        message.append(reason.as_str());
        warn(&mut warnings, message);
        let failed = failed_pass.policy_result;
        let ghost was = failed@;
        let result = PolicyResult {
            text: original_text.to_owned(),
            warnings: Self::dedup_warning_slices(warnings.as_slice(), failed.warnings.as_slice()),
            violations: failed.violations,
            edits: Vec::new(),
            changed: false,
        };
        assert(result@.edits =~= Seq::empty());
        Ok(
            FormatPassResult {
                policy_result: result,
                convergence_pairs: BTreeMap::new(),
                policy_traces: Vec::new(),
                accuracy_gate: None,
            },
        )
    }

    /// Decides on a pass that is kept, by the thresholds for accuracy.
    pub fn decide(
        &self,
        result: &PolicyResult,
        semantic_ready: bool,
        semantic_context_kind: SemanticCompdbContextKind,
    ) -> (r: AccuracyGateDecision)
        ensures
            accuracy_gate::is_gate_decision(
                r,
                self.accuracy_gate,
                gate_input(result@, semantic_ready, semantic_context_kind),
            ),
    {
        let attempted_edits = result.edits.len();
        let attempted_violations = result.violations.len();
        proof {
            assert(result@.edits.len() == attempted_edits);
            assert(result@.violations.len() == attempted_violations);
        }
        AccuracyGate::evaluate(
            &self.accuracy_gate,
            AccuracyGateInput {
                semantic_ready,
                attempted_edits,
                attempted_violations,
                accepted_edits: attempted_edits,
                semantic_context_kind,
            },
        )
    }

    /// Holds a pass that is kept to the accuracy gate. `summary` is the text that sums
    /// the accuracy gate's decision up.
    pub fn apply_gate(
        &self,
        pass: &mut FormatPassResult,
        path: &str,
        semantic_ready: bool,
        semantic_context_kind: SemanticCompdbContextKind,
        summary: &str,
    ) -> (r: Result<(), AccuracyGateFailure>)
        ensures
            final(pass).policy_traces == old(pass).policy_traces,
            final(pass).convergence_pairs == old(pass).convergence_pairs,
            exists|d: AccuracyGateDecision|
                #[trigger] accuracy_gate::is_gate_decision(
                    d,
                    self.accuracy_gate,
                    gate_input(old(pass).policy_result@, semantic_ready, semantic_context_kind),
                ) && final(pass).policy_result@ == gated(
                    old(pass).policy_result@,
                    d.status,
                    summary@,
                ) && match d.status {
                    AccuracyGateStatus::FailedClosed => r is Err && r->Err_0.decision == d
                        && r->Err_0.path@ == path@ && r->Err_0.kind is ThresholdMiss
                        && final(pass).accuracy_gate == old(pass).accuracy_gate,
                    AccuracyGateStatus::WarningOnly => r is Ok && final(pass).accuracy_gate
                        == Some(d),
                    AccuracyGateStatus::Passed => r is Ok && final(pass).accuracy_gate == old(
                        pass,
                    ).accuracy_gate,
                },
    {
        let ghost was = pass.policy_result@;
        let decision = self.decide(&pass.policy_result, semantic_ready, semantic_context_kind);
        match decision.status {
            AccuracyGateStatus::Passed => Ok(()),
            AccuracyGateStatus::FailedClosed => Err(
                AccuracyGateFailure::threshold_miss(path, decision),
            ),
            AccuracyGateStatus::WarningOnly => {
                warn(&mut pass.policy_result.warnings, summary.to_owned());
                let ghost were = pass.policy_result.violations@;
                let violation = Violation {
                    policy: "accuracy_gate".to_owned(),
                    message: "accuracy gate warning (fail-open rollout)".to_owned(),
                    line: 1,
                    column: Some(1),
                };
                let ghost view = violation@;
                pass.policy_result.violations.push(violation);
                assert(model::violation_views(pass.policy_result.violations@)
                    =~= model::violation_views(were).push(view));
                assert(pass.policy_result@ =~= gated(
                    was,
                    AccuracyGateStatus::WarningOnly,
                    summary@,
                ));
                pass.accuracy_gate = Some(decision);
                Ok(())
            },
        }
    }
}

/// A scope that an edit lies in.
pub open spec fn is_edited_scope(scope: (usize, usize), edited: Set<usize>) -> bool {
    lines::has_between(edited, scope.0 as int, scope.1 as int)
}

/// Whether a scope around a line was edited.
pub open spec fn in_edited_scope(
    line: usize,
    edited: Set<usize>,
    scopes: Seq<(usize, usize)>,
) -> bool {
    exists|i: int|
        0 <= i < scopes.len() && is_edited_scope(#[trigger] scopes[i], edited) && scopes[i].0
            <= line <= scopes[i].1
}

/// Whether a culprit line lies near an edit, or in a scope that was edited.
pub open spec fn is_local_culprit(
    line: usize,
    edited: Set<usize>,
    radius: usize,
    scopes: Seq<(usize, usize)>,
) -> bool {
    lines::near(line, edited, radius) || in_edited_scope(line, edited, scopes)
}

impl FormatterEngine {
    fn line_is_local(
        line: usize,
        edited: &BTreeSet<usize>,
        radius: usize,
        scopes: &[(usize, usize)],
    ) -> (r: bool)
        ensures
            r == is_local_culprit(line, edited@, radius, scopes@),
    {
        if line_near(line, edited, radius) {
            return true;
        }
        let mut i: usize = 0;
        while i < scopes.len()
            invariant
                i <= scopes@.len(),
                forall|k: int|
                    0 <= k < i ==> !(is_edited_scope(#[trigger] scopes@[k], edited@) && scopes@[k].0
                        <= line <= scopes@[k].1),
            decreases scopes@.len() - i,
        {
            let (start, end) = scopes[i];
            if start <= line && line <= end && lines::any_between(edited, start, end) {
                assert(is_edited_scope(scopes@[i as int], edited@));
                return true;
            }
            i += 1;
        }
        false
    }

    /// How many of the culprit lines are local to the edits, and how many there
    /// are.
    pub fn scope_aware_culprit_locality(
        check: &PostEditCheckResult,
        edited_lines: &BTreeSet<usize>,
        numeric_radius: usize,
        scope_ranges: &[(usize, usize)],
    ) -> (r: (usize, usize))
        ensures
            r.0 == check@.culprits.filter(
                |line: usize|
                    is_local_culprit(line, edited_lines@, numeric_radius, scope_ranges@),
            ).len(),
            r.1 == check@.culprits.len(),
    {
        let ghost local = |line: usize|
            is_local_culprit(line, edited_lines@, numeric_radius, scope_ranges@);
        let list = lines_of(&check.culprit_lines);
        let mut count: usize = 0;
        let mut i: usize = 0;
        assert(list@.take(0).to_set().filter(local) =~= Set::empty());
        while i < list.len()
            invariant
                i <= list@.len(),
                lines::increasing(list@),
                local == (|line: usize|
                    is_local_culprit(line, edited_lines@, numeric_radius, scope_ranges@)),
                count <= i,
                list@.take(i as int).to_set().filter(local).finite(),
                count == list@.take(i as int).to_set().filter(local).len(),
            decreases list@.len() - i,
        {
            let line = list[i];
            proof {
                lines::lemma_take_insert(list@, i as int);
                let head = list@.take(i as int);
                if head.to_set().contains(line) {
                    let k = choose|k: int| 0 <= k < head.len() && head[k] == line;
                    assert(list@[k] < list@[i as int]);
                }
                let next = list@.take(i + 1).to_set().filter(local);
                if local(line) {
                    assert(next =~= head.to_set().filter(local).insert(line));
                } else {
                    assert(next =~= head.to_set().filter(local));
                }
            }
            if Self::line_is_local(line, edited_lines, numeric_radius, scope_ranges) {
                count += 1;
            }
            i += 1;
        }
        assert(list@.take(list@.len() as int) =~= list@);
        (count, check.culprit_lines.len())
    }
}

/// No warning is told twice, and none is lost.
pub proof fn lemma_merged_warnings(a: Seq<Seq<char>>, b: Seq<Seq<char>>, w: Seq<char>)
    ensures
        merged_warnings(a, b).no_duplicates(),
        merged_warnings(a, b).contains(w) <==> a.contains(w) || b.contains(w),
{
    let none = Seq::<Seq<char>>::empty();
    lemma_with_new(none, a, a.len() as int, w);
    let first = with_new(none, a, a.len() as int);
    lemma_with_new(first, b, b.len() as int, w);
    assert(a.take(a.len() as int) =~= a);
    assert(b.take(b.len() as int) =~= b);
}

proof fn lemma_with_new(known: Seq<Seq<char>>, more: Seq<Seq<char>>, n: int, w: Seq<char>)
    requires
        known.no_duplicates(),
        0 <= n <= more.len(),
    ensures
        with_new(known, more, n).no_duplicates(),
        with_new(known, more, n).contains(w) <==> known.contains(w) || more.take(n).contains(w),
    decreases n,
{
    if n > 0 {
        lemma_with_new(known, more, n - 1, w);
        let rest = with_new(known, more, n - 1);
        let x = more[n - 1];
        assert(more.take(n) =~= more.take(n - 1).push(x));
        let head = more.take(n - 1);
        assert(more.take(n).contains(w) <==> head.contains(w) || w == x) by {
            if head.contains(w) {
                let k = choose|k: int| 0 <= k < head.len() && head[k] == w;
                assert(more.take(n)[k] == w);
            }
            if more.take(n).contains(w) {
                let k = choose|k: int| 0 <= k < n && more.take(n)[k] == w;
                if k < n - 1 {
                    assert(head[k] == w);
                }
            }
            assert(more.take(n)[n - 1] == x);
        }
        if !rest.contains(x) {
            let all = rest.push(x);
            assert(all.contains(w) <==> rest.contains(w) || w == x) by {
                if rest.contains(w) {
                    let k = choose|k: int| 0 <= k < rest.len() && rest[k] == w;
                    assert(all[k] == w);
                }
                assert(all[rest.len() as int] == x);
            }
            assert forall|i: int, j: int| 0 <= i < all.len() && 0 <= j < all.len() && i
                != j implies all[i] != all[j] by {
                if i < rest.len() {
                    assert(rest.contains(rest[i]));
                }
                if j < rest.len() {
                    assert(rest.contains(rest[j]));
                }
            }
        }
    }
}

/// A file that is left as it was holds no edit.
pub proof fn lemma_reverted_is_original(
    original: Seq<char>,
    failed: ResultView,
    warnings: Seq<Seq<char>>,
    attempts: usize,
)
    ensures
        reverted(original, failed, warnings, attempts).text == original,
        reverted(original, failed, warnings, attempts).edits.len() == 0,
        !reverted(original, failed, warnings, attempts).changed,
{
}

/// After `told`, a text that differs from the input has edits.
pub proof fn lemma_told_is_tracked(input: Seq<char>, r: ResultView)
    ensures
        told(input, r).text != input ==> told(input, r).edits.len() > 0,
{
    if is_untold(input, r) {
        let policy = fallback_policy(r.violations);
        if all_line_edits(input, r.text, policy).len() == 0 {
            let b = line_text::lines_in(input);
            let a = line_text::lines_in(r.text);
            let n = if b.len() < a.len() {
                a.len() as int
            } else {
                b.len() as int
            };
            lemma_no_line_edit(b, a, policy, n);
            line_text::lemma_lines_are_lines(input);
            line_text::lemma_lines_are_lines(r.text);
            assert(a.len() == b.len()) by {
                if a.len() < b.len() {
                    assert(line_or_empty(b, a.len() as int) == line_or_empty(a, a.len() as int));
                }
                if b.len() < a.len() {
                    assert(line_or_empty(b, b.len() as int) == line_or_empty(a, b.len() as int));
                }
            }
            assert(a =~= b) by {
                assert forall|i: int| 0 <= i < a.len() implies a[i] == b[i] by {
                    assert(line_or_empty(b, i) == line_or_empty(a, i));
                }
            }
            line_text::lemma_lines_concat(input);
            line_text::lemma_lines_concat(r.text);
        }
    }
}

proof fn lemma_no_line_edit(b: Seq<Seq<char>>, a: Seq<Seq<char>>, policy: Seq<char>, n: int)
    requires
        line_by_line(b, a, policy, n).len() == 0,
    ensures
        forall|i: int| 0 <= i < n ==> line_or_empty(b, i) == #[trigger] line_or_empty(a, i),
    decreases n,
{
    if n > 0 {
        lemma_no_line_edit(b, a, policy, n - 1);
    }
}

/// A number of at most one, in billionths.
pub open spec fn at_most_one(n: int) -> int {
    if n > 1_000_000_000 {
        1_000_000_000
    } else {
        n
    }
}

/// What a run shows of a file's structure, semantics, coverage and richness,
/// and of how often edits succeed, in billionths.
pub open spec fn shown_by(b: Option<PostEditCheckBaseline>, acceptance: u32) -> Seq<int> {
    let structural = if b is Some && b->Some_0.before_tree_error_ratio is Some {
        1_000_000_000 - at_most_one((b->Some_0.before_tree_error_ratio->Some_0).units as int)
    } else {
        850_000_000
    };
    let semantic = if b is Some && b->Some_0.before_clang_summary is Some {
        let found = b->Some_0.before_clang_summary->Some_0;
        1_000_000_000 - at_most_one(found.error * 100_000_000 + found.warning * 20_000_000)
    } else {
        500_000_000
    };
    let (coverage, richness) = if b is Some && b->Some_0.before_semantic_snapshot is Some {
        let snap = (b->Some_0.before_semantic_snapshot->Some_0)@;
        (
            at_most_one(snap.summary.reference_count * 20_000_000),
            at_most_one(
                (snap.counts.namespace + snap.counts.type_scope + snap.counts.function
                    + snap.summary.declaration_count) * 1_000_000_000 / 30,
            ),
        )
    } else {
        (500_000_000int, 500_000_000int)
    };
    seq![structural, semantic, coverage, richness, acceptance as int]
}

fn capped_share(n: u128) -> (r: u32)
    ensures
        r == at_most_one(n as int),
{
    if n > 1_000_000_000 {
        1_000_000_000
    } else {
        n as u32
    }
}

impl FormatterEngine {
    /// What a run shows of a file, by its baseline and how well its edits did.
    pub fn observe_adaptive(
        baseline: Option<&PostEditCheckBaseline>,
        acceptance_score: u32,
    ) -> (r: [u32; 5])
        ensures
            r@.map_values(|n: u32| n as int) == shown_by(
                match baseline {
                    Some(b) => Some(*b),
                    None => None,
                },
                acceptance_score,
            ),
    {
        let mut structural: u32 = 850_000_000;
        let mut semantic: u32 = 500_000_000;
        let mut coverage: u32 = 500_000_000;
        let mut richness: u32 = 500_000_000;
        if let Some(b) = baseline {
            if let Some(ratio) = &b.before_tree_error_ratio {
                structural = 1_000_000_000 - capped_share(ratio.units as u128);
            }
            if let Some(found) = &b.before_clang_summary {
                let weight: u128 = found.error as u128 * 100_000_000 + found.warning as u128
                    * 20_000_000;
                semantic = 1_000_000_000 - capped_share(weight);
            }
            if let Some(snap) = &b.before_semantic_snapshot {
                let counts = &snap.scopes.counts;
                let things: u128 = counts.namespace as u128 + counts.type_scope as u128
                    + counts.function as u128 + snap.summary.declaration_count as u128;
                coverage = capped_share(snap.summary.reference_count as u128 * 20_000_000);
                richness = capped_share(things * 1_000_000_000 / 30);
            }
        }
        let r = [structural, semantic, coverage, richness, acceptance_score];
        assert(r@.map_values(|n: u32| n as int) =~= shown_by(
            match baseline {
                Some(b) => Some(*b),
                None => None,
            },
            acceptance_score,
        ));
        r
    }
}

/// Who is to blame for a failed check: the policies with an edit of a culprit
/// line; and, where identities or references regressed and the file is known as
/// it was, those with an edit of a line that declares a symbol which is declared
/// or first used on a culprit line. Nobody else is.
pub proof fn lemma_who_is_to_blame(
    edits: Seq<EditView>,
    check: CheckView,
    before: Option<SnapshotView>,
    policy: Seq<char>,
)
    requires
        policy.len() > 0,
    ensures
        ({
            let direct = exists|k: int|
                0 <= k < edits.len() && (#[trigger] edits[k]).policy == policy && edits[k].line > 0
                    && check.culprits.contains(edits[k].line);
            let behind = exists|k: int|
                0 <= k < edits.len() && (#[trigger] edits[k]).policy == policy && edits[k].line > 0
                    && is_origin(before->Some_0, check.culprits, edits[k].line);
            let semantic = check.kinds.contains(
                PostEditFailureKind::SemanticReferenceIntegrityRegressed,
            ) || check.kinds.contains(PostEditFailureKind::SemanticIdentityRegressed);
            blamed(edits, check, before).contains(policy) <==> direct || (before is Some && semantic
                && behind)
        }),
{
    lemma_touching(edits, check.culprits, edits.len() as int, policy);
    if before is Some {
        let origins = origin_lines(before->Some_0, check.culprits);
        lemma_touching(edits, origins, edits.len() as int, policy);
        if exists|k: int|
            0 <= k < edits.len() && (#[trigger] edits[k]).policy == policy && edits[k].line > 0
                && is_origin(before->Some_0, check.culprits, edits[k].line) {
            let k = choose|k: int|
                0 <= k < edits.len() && (#[trigger] edits[k]).policy == policy && edits[k].line > 0
                    && is_origin(before->Some_0, check.culprits, edits[k].line);
            assert(origins.contains(edits[k].line));
        }
    }
}

proof fn lemma_touching(edits: Seq<EditView>, lines: Set<usize>, n: int, policy: Seq<char>)
    requires
        0 <= n <= edits.len(),
        policy.len() > 0,
    ensures
        touching_policies(edits, lines, n).contains(policy) <==> exists|k: int|
            0 <= k < n && (#[trigger] edits[k]).policy == policy && edits[k].line > 0
                && lines.contains(edits[k].line),
    decreases n,
{
    if n > 0 {
        lemma_touching(edits, lines, n - 1, policy);
        if touches(edits[n - 1], lines) && edits[n - 1].policy == policy {
            assert(edits[n - 1].policy == policy && edits[n - 1].line > 0);
        }
    }
}

/// What follows on a check. A pass that is accepted is kept, and counts for more
/// in the first attempt, and where the check has no objection. One that is not
/// is run again without the policies that are to blame, once and where there are
/// some; and else the file is left as it was.
pub proof fn lemma_what_follows_on_a_check(
    step: CheckStep,
    first: bool,
    accepted: bool,
    check: CheckView,
    edits: Seq<EditView>,
    traces: Seq<ExecutionView>,
    before: Option<SnapshotView>,
    k: int,
)
    requires
        is_check_step(step, first, accepted, check, edits, traces, before),
    ensures
        step is Keep <==> accepted,
        !accepted && !first ==> step is Revert,
        step is RunAgain ==> first && !accepted,
        !accepted && first && 0 <= k < edits.len() && edits[k].line > 0 && edits[k].policy.len() > 0
            && check.culprits.contains(edits[k].line) && blamed(edits, check, before).finite()
            ==> step is RunAgain && text::views(step->options.blocked_policies@).contains(
            edits[k].policy,
        ),
        step is Keep && check.accepted ==> step->outcome == ClusterOutcome::Accepted,
        step is Keep && !check.accepted && first ==> step->outcome == ClusterOutcome::Regressed,
{
    if !accepted && first && 0 <= k < edits.len() && edits[k].line > 0 && edits[k].policy.len() > 0
        && check.culprits.contains(edits[k].line) && blamed(edits, check, before).finite() {
        let culprits = blamed(edits, check, before);
        lemma_who_is_to_blame(edits, check, before, edits[k].policy);
        assert(edits[k].policy == edits[k].policy && edits[k].line > 0);
        assert(culprits.contains(edits[k].policy));
        assert(culprits.len() > 0);
        assert(text::views(step->options.blocked_policies@).to_set().contains(edits[k].policy));
    }
}

/// How a pass is checked: a first pass is let through unchecked only where it
/// changed nothing or checks are off; and the semantics are left out only where
/// there is something to compare with and no edit is of a policy that rewrites
/// symbols.
pub proof fn lemma_how_a_pass_is_checked(
    retry: RetryConfig,
    input: Seq<char>,
    r: ResultView,
    has_baseline: bool,
    first: bool,
    k: int,
)
    ensures
        ({
            let step = pass_step(retry, input, r, has_baseline, first);
            &&& step == PassStep::Keep <==> first && (r.text == input
                || !retry.post_edit_check_enabled)
            &&& step == PassStep::CheckStructure ==> has_baseline && r.edits.len() > 0
            &&& step == PassStep::CheckStructure && 0 <= k < r.edits.len() ==> r.edits[k].policy
                != "naming_conventions"@ && r.edits[k].policy != "snake_case"@
                && r.edits[k].policy != "operator_overload_spacing"@ && r.edits[k].policy
                != "function_void_params"@
            &&& !first && !has_baseline ==> step == PassStep::CheckFull
        }),
{
    if 0 <= k < r.edits.len() {
        catalog::lemma_special_policies(r.edits[k].policy);
        if all_structural(r.edits) {
            assert(is_structural(r.edits[k]));
        }
    }
}

/// A change that no edit tells of is told: where it is not too large, every line
/// that differs gets its edit; and a larger one is taken back.
pub proof fn lemma_untold_changes(input: Seq<char>, r: ResultView, i: int)
    requires
        r.edits.len() == 0,
        r.text != input,
        line_text::lines_in(input).len() < usize::MAX,
        line_text::lines_in(r.text).len() < usize::MAX,
        0 <= i < line_text::lines_in(input).len(),
        i < line_text::lines_in(r.text).len(),
        line_text::lines_in(input)[i] != line_text::lines_in(r.text)[i],
    ensures
        ({
            let t = told(input, r);
            ||| t.text == input && t.edits.len() == 0
            ||| t.text == r.text && exists|k: int|
                0 <= k < t.edits.len() && (#[trigger] t.edits[k]).line == i + 1 && t.edits[k].before
                    == line_text::lines_in(input)[i] && t.edits[k].after == line_text::lines_in(
                    r.text,
                )[i]
        }),
        told(input, r).warnings.len() == r.warnings.len() + 1,
{
    let b = line_text::lines_in(input);
    let a = line_text::lines_in(r.text);
    let n = if b.len() < a.len() {
        a.len() as int
    } else {
        b.len() as int
    };
    let policy = fallback_policy(r.violations);
    let edits = all_line_edits(input, r.text, policy);
    lemma_line_edit(b, a, policy, n, i);
    let k = choose|k: int|
        0 <= k < edits.len() && (#[trigger] edits[k]).line == i + 1 && edits[k].before == b[i]
            && edits[k].after == a[i];
    assert(edits.len() > 0);
    let t = told(input, r);
    if t.text != input {
        assert(t.edits == edits);
        assert(t.edits[k].line == i + 1);
    }
}

proof fn lemma_line_edit(
    b: Seq<Seq<char>>,
    a: Seq<Seq<char>>,
    policy: Seq<char>,
    n: int,
    i: int,
)
    requires
        0 <= i < n,
        i < b.len(),
        i < a.len(),
        n <= usize::MAX,
        b[i] != a[i],
    ensures
        exists|k: int|
            0 <= k < line_by_line(b, a, policy, n).len() && (#[trigger] line_by_line(
                b,
                a,
                policy,
                n,
            )[k]).line == i + 1 && line_by_line(b, a, policy, n)[k].before == b[i] && line_by_line(
                b,
                a,
                policy,
                n,
            )[k].after == a[i],
    decreases n,
{
    let all = line_by_line(b, a, policy, n);
    let rest = line_by_line(b, a, policy, n - 1);
    if i == n - 1 {
        assert(all[rest.len() as int].line == i + 1);
    } else {
        lemma_line_edit(b, a, policy, n - 1, i);
        let k = choose|k: int|
            0 <= k < rest.len() && (#[trigger] rest[k]).line == i + 1 && rest[k].before == b[i]
                && rest[k].after == a[i];
        assert(all[k] == rest[k]);
    }
}

/// What the accuracy gate says of a pass does not touch its text or its edits: a
/// warning is told and counted among the violations, and nothing else is said.
pub proof fn lemma_gate_remarks(r: ResultView, status: AccuracyGateStatus, summary: Seq<char>)
    ensures
        gated(r, status, summary).text == r.text,
        gated(r, status, summary).edits == r.edits,
        status != AccuracyGateStatus::WarningOnly ==> gated(r, status, summary) == r,
        status == AccuracyGateStatus::WarningOnly ==> {
            &&& gated(r, status, summary).warnings == r.warnings.push(summary)
            &&& gated(r, status, summary).violations.len() == r.violations.len() + 1
        },
{
}

/// Whether a culprit line is local: it is within the radius of an edited line,
/// or in a scope in which a line was edited.
pub proof fn lemma_which_culprits_are_local(
    line: usize,
    edited: Set<usize>,
    radius: usize,
    scopes: Seq<(usize, usize)>,
    e: usize,
    i: int,
)
    requires
        line > 0,
        edited.contains(e),
    ensures
        line <= e + radius && e <= line + radius ==> is_local_culprit(line, edited, radius, scopes),
        0 <= i < scopes.len() && scopes[i].0 <= e <= scopes[i].1 && scopes[i].0 <= line
            <= scopes[i].1 ==> is_local_culprit(line, edited, radius, scopes),
        scopes.len() == 0 && (forall|x: usize| #[trigger]
            edited.contains(x) ==> line > x + radius || x > line + radius) ==> !is_local_culprit(
            line,
            edited,
            radius,
            scopes,
        ),
{
    if 0 <= i < scopes.len() && scopes[i].0 <= e <= scopes[i].1 {
        assert(is_edited_scope(scopes[i], edited));
    }
}

/// What a check says is passed on, but for the note on changed identities where
/// a policy that rewrites symbols was at work; and an edit that is refused is
/// remarked upon.
pub proof fn lemma_messages_are_passed_on(
    check: CheckView,
    edits: Seq<EditView>,
    m: Seq<char>,
    kind: PostEditFailureKind,
)
    requires
        check.messages.contains(m),
    ensures
        !text::has_part(m, "semantic identity signature changed"@) ==> check_warnings(
            check,
            edits,
        ).contains(m),
        (forall|i: int|
            0 <= i < edits.len() ==> (#[trigger] edits[i]).policy != "naming_conventions"@
                && edits[i].policy != "snake_case"@ && edits[i].policy
                != "operator_overload_spacing"@ && edits[i].policy != "function_void_params"@)
            ==> check_warnings(check, edits).contains(m),
        !check.accepted && check.kinds.contains(kind) ==> check_warnings(check, edits).len() > 0
            && text::begins_with(
            check_warnings(check, edits).last(),
            "post-edit check informational: acceptance_score=1.000, failure_kinds="@,
        ),
{
    let rewrites = any_rewrite(edits);
    let heard = passed_on(check.messages, rewrites);
    if !(rewrites && is_rename_note(m)) {
        lemma_heard(check.messages, rewrites, m);
    }
    if forall|i: int|
        0 <= i < edits.len() ==> (#[trigger] edits[i]).policy != "naming_conventions"@
            && edits[i].policy != "snake_case"@ && edits[i].policy != "operator_overload_spacing"@
            && edits[i].policy != "function_void_params"@ {
        assert forall|i: int| 0 <= i < edits.len() implies !catalog::named_capabilities(
            (#[trigger] edits[i]).policy,
        ).semantic_rewrite by {
            catalog::lemma_special_policies(edits[i].policy);
        }
        assert(!rewrites);
    }
    let all = check_warnings(check, edits);
    if heard.contains(m) {
        let k = choose|k: int| 0 <= k < heard.len() && heard[k] == m;
        assert(all[k] == m);
    }
    if !check.accepted && check.kinds.contains(kind) {
        let head = "post-edit check informational: acceptance_score=1.000, failure_kinds="@;
        assert(check.kinds != Set::<PostEditFailureKind>::empty());
        assert(all.last().take(head.len() as int) =~= head);
    }
}

proof fn lemma_heard(messages: Seq<Seq<char>>, rewrites: bool, m: Seq<char>)
    requires
        messages.contains(m),
        !(rewrites && is_rename_note(m)),
    ensures
        passed_on(messages, rewrites).contains(m),
    decreases messages.len(),
{
    let head = messages.drop_last();
    let rest = passed_on(head, rewrites);
    let all = passed_on(messages, rewrites);
    let k = choose|k: int| 0 <= k < messages.len() && messages[k] == m;
    if k < head.len() {
        assert(head[k] == m);
        lemma_heard(head, rewrites, m);
        let j = choose|j: int| 0 <= j < rest.len() && rest[j] == m;
        assert(all[j] == m);
    } else {
        assert(all[rest.len() as int] == m);
    }
}

/// A second pass skips the policies that had nothing to edit, unless they are to
/// blame.
pub proof fn lemma_who_is_idle(
    traces: Seq<ExecutionView>,
    culprits: Set<Seq<char>>,
    n: int,
    policy: Seq<char>,
)
    requires
        0 <= n <= traces.len(),
    ensures
        idle_policies(traces, culprits, n).contains(policy) <==> !culprits.contains(policy)
            && exists|k: int|
            0 <= k < n && (#[trigger] traces[k]).policy == policy && traces[k].candidate_line_count
                == 0,
    decreases n,
{
    if n > 0 {
        lemma_who_is_idle(traces, culprits, n - 1, policy);
        if traces[n - 1].policy == policy && traces[n - 1].candidate_line_count == 0 {
            assert(traces[n - 1].policy == policy);
        }
    }
}

/// A file whose semantics are not ready, while that is demanded, is stopped by a
/// gate that fails closed where the options are exact, and nowhere else.
pub proof fn lemma_unready_files_are_stopped(
    config: AccuracyGateConfig,
    kind: SemanticCompdbContextKind,
)
    requires
        config.semantic_required,
    ensures
        stops_unready(config, kind) <==> config.fail_closed && kind
            == SemanticCompdbContextKind::Exact,
{
    let input = untried_input(kind);
    accuracy_gate::lemma_exact_context_fails_closed(config, input);
    let reasons = accuracy_gate::objections(config, input);
    assert(reasons[0] is SemanticRequiredUnmet);
}

/// What a run shows of a file: of one of which nothing is known the middle; each
/// error of the compiler takes a tenth and each warning a fiftieth from its
/// semantics; and fifty references make its coverage full.
pub proof fn lemma_what_a_run_shows(b: PostEditCheckBaseline, acceptance: u32)
    ensures
        shown_by(None, acceptance) == seq![
            850_000_000int,
            500_000_000,
            500_000_000,
            500_000_000,
            acceptance as int,
        ],
        shown_by(Some(b), acceptance)[4] == acceptance,
        b.before_clang_summary is Some && 5 * b.before_clang_summary->Some_0.error
            + b.before_clang_summary->Some_0.warning <= 50 ==> shown_by(Some(b), acceptance)[1]
            == 1_000_000_000 - 100_000_000 * b.before_clang_summary->Some_0.error - 20_000_000
            * b.before_clang_summary->Some_0.warning,
        b.before_clang_summary is Some && 5 * b.before_clang_summary->Some_0.error
            + b.before_clang_summary->Some_0.warning >= 50 ==> shown_by(Some(b), acceptance)[1]
            == 0,
        b.before_tree_error_ratio is Some && b.before_tree_error_ratio->Some_0.units
            <= 1_000_000_000 ==> shown_by(Some(b), acceptance)[0]
            + b.before_tree_error_ratio->Some_0.units == 1_000_000_000,
        b.before_semantic_snapshot is Some
            && b.before_semantic_snapshot->Some_0@.summary.reference_count <= 50 ==> shown_by(
            Some(b),
            acceptance,
        )[2] == 20_000_000 * b.before_semantic_snapshot->Some_0@.summary.reference_count,
        b.before_semantic_snapshot is Some
            && b.before_semantic_snapshot->Some_0@.summary.declaration_count >= 30 ==> shown_by(
            Some(b),
            acceptance,
        )[3] == 1_000_000_000,
{
}

/// An untold change of no more than two hundred and fifty-six lines is kept, and
/// a larger one is taken back.
pub proof fn lemma_large_untold_changes_are_taken_back(input: Seq<char>, r: ResultView)
    requires
        r.edits.len() == 0,
        r.text != input,
    ensures
        ({
            let n = all_line_edits(input, r.text, fallback_policy(r.violations)).len();
            &&& n <= 256 ==> told(input, r).text == r.text && told(input, r).edits.len() == n
            &&& n > 256 ==> told(input, r).text == input && told(input, r).edits.len() == 0
        }),
{
}

} // verus!
