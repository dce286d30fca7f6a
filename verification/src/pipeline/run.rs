//! A run of all policies over one text.
use vstd::prelude::*;

use crate::catalog;
use crate::catalog::policy_catalog;
use crate::conflict_solver;
use crate::convergence;
use crate::convergence::ConvergenceController;
use crate::edit_candidate::{CandidateView, PolicyDecisionOutcome, PolicyEditCandidate};
use crate::gate_decision::ConfidenceGateDecision;
use crate::line_text;
use crate::line_text::split_lines;
use crate::model;
use crate::model::{warn, Edit, EditView, PolicyResult, ResultView, Violation, ViolationView};
use crate::pipeline::candidate_trace;
use crate::pipeline::candidate_trace::{PolicyCandidateTrace, TraceView};
use crate::pipeline::checkpoint::PolicyCheckpointResult;
use crate::pipeline::coordinate::CoordinatedPolicyStage;
use crate::pipeline::edit_utils;
use crate::pipeline::edit_utils::stabilize_output_text;
use crate::pipeline::stage::PreparedPolicyStage;
use crate::run_options::{PolicyRunOptions, RetryScopeStage};
use crate::semantic_contract;
use crate::semantic_contract::{PolicyGuidanceMode, SemanticContract};
use crate::text;
use crate::text::str_eq;

verus! {

/// Which parses of the text are at hand.
#[derive(Clone, Copy, Debug, PartialEq, Eq, Structural)]
pub struct ParseCache {
    pub tree: bool,
    /// The tree before the last change.
    pub prev_tree: bool,
    pub clang: bool,
    pub semantic: bool,
    pub comment_lines: bool,
    pub summary: bool,
    pub error_lines: bool,
    /// How often the text changed since the compiler read it.
    pub clang_edits_since: usize,
    /// Whether the compiler's options for the file are known.
    pub has_semantic_compdb: bool,
}

/// What has to be parsed before a policy can run.
#[derive(Clone, Copy, Debug, PartialEq, Eq, Structural)]
pub struct ParsePlan {
    pub tree: bool,
    pub clang: bool,
}

impl ParseCache {
    /// Nothing is parsed.
    pub open spec fn empty(has_semantic_compdb: bool) -> ParseCache {
        ParseCache {
            tree: false,
            prev_tree: false,
            clang: false,
            semantic: false,
            comment_lines: false,
            summary: false,
            error_lines: false,
            clang_edits_since: 0,
            has_semantic_compdb,
        }
    }

    pub fn new(has_semantic_compdb: bool) -> (r: ParseCache)
        ensures
            r == ParseCache::empty(has_semantic_compdb),
    {
        ParseCache {
            tree: false,
            prev_tree: false,
            clang: false,
            semantic: false,
            comment_lines: false,
            summary: false,
            error_lines: false,
            clang_edits_since: 0,
            has_semantic_compdb,
        }
    }

    /// What has to be parsed: the tree always, the compiler's view where its
    /// options are known.
    pub open spec fn planned(self) -> ParsePlan {
        ParsePlan { tree: !self.tree, clang: !self.clang && self.has_semantic_compdb }
    }

    pub fn plan(&self) -> (r: ParsePlan)
        ensures
            r == self.planned(),
    {
        ParsePlan { tree: !self.tree, clang: !self.clang && self.has_semantic_compdb }
    }

    /// All that was planned is parsed, and the semantics are worked out.
    pub open spec fn parsed(self) -> ParseCache {
        let plan = self.planned();
        ParseCache {
            tree: true,
            prev_tree: if plan.tree {
                false
            } else {
                self.prev_tree
            },
            clang: self.clang || plan.clang,
            semantic: true,
            comment_lines: true,
            summary: self.summary || plan.clang || !self.semantic,
            clang_edits_since: if plan.clang {
                0
            } else {
                self.clang_edits_since
            },
            ..self
        }
    }

    /// Takes down that all that was planned is parsed. Tells whether the
    /// semantics have to be worked out anew.
    pub fn finish_parse(&mut self) -> (r: bool)
        ensures
            *final(self) == old(self).parsed(),
            r == (!old(self).semantic || old(self).planned().clang),
    {
        let plan = self.plan();
        if plan.tree {
            self.tree = true;
            self.prev_tree = false;
        }
        if plan.clang {
            self.clang = true;
            self.clang_edits_since = 0;
            self.semantic = false;
        }
        let anew = !self.semantic;
        if anew {
            self.semantic = true;
            self.summary = true;
        }
        self.comment_lines = true;
        anew
    }

    /// What is left of the parses after the text changed. The compiler's view
    /// goes where a rewrite of symbols makes it useless.
    pub open spec fn invalidated(self, is_semantic_rewrite: bool, clang_invalidating: bool) ->
        ParseCache {
        let stale = is_semantic_rewrite && clang_invalidating;
        ParseCache {
            tree: false,
            prev_tree: self.tree,
            clang: self.clang && !stale,
            semantic: false,
            comment_lines: false,
            summary: false,
            error_lines: false,
            clang_edits_since: if stale {
                0
            } else {
                (self.clang_edits_since + 1) as usize
            },
            ..self
        }
    }

    /// Forgets the parses that a change of the text makes useless.
    pub fn invalidate(&mut self, is_semantic_rewrite: bool, clang_invalidating: bool)
        requires
            old(self).clang_edits_since < usize::MAX,
        ensures
            *final(self) == old(self).invalidated(is_semantic_rewrite, clang_invalidating),
    {
        self.prev_tree = self.tree;
        self.tree = false;
        self.error_lines = false;
        if is_semantic_rewrite && clang_invalidating {
            self.clang = false;
            self.clang_edits_since = 0;
        } else {
            self.clang_edits_since = self.clang_edits_since + 1;
        }
        self.semantic = false;
        self.comment_lines = false;
        self.summary = false;
    }
}

/// What became of one policy in a run.
#[derive(Debug)]
pub struct PolicyExecutionTrace {
    pub policy: String,
    pub parse_mode: String,
    pub context_cluster: u64,
    pub candidate_line_count: usize,
    pub dropped_line_count: usize,
    pub semantic_impact_radius: usize,
    pub confidence_outcome: Option<PolicyDecisionOutcome>,
    /// As they are shown.
    pub confidence_score: Option<String>,
    pub confidence_threshold: Option<String>,
    pub executor_scope: RetryScopeStage,
    pub candidate_trace: Vec<PolicyCandidateTrace>,
}

/// The value of a trace.
#[verifier::ext_equal]
pub ghost struct ExecutionView {
    pub policy: Seq<char>,
    pub parse_mode: Seq<char>,
    pub context_cluster: u64,
    pub candidate_line_count: usize,
    pub dropped_line_count: usize,
    pub semantic_impact_radius: usize,
    pub confidence_outcome: Option<PolicyDecisionOutcome>,
    pub confidence_score: Option<Seq<char>>,
    pub confidence_threshold: Option<Seq<char>>,
    pub executor_scope: RetryScopeStage,
    pub candidate_trace: Seq<TraceView>,
}

/// A text, where there is one.
pub open spec fn shown_text(t: Option<String>) -> Option<Seq<char>> {
    match t {
        Some(t) => Some(t@),
        None => None,
    }
}

impl View for PolicyExecutionTrace {
    type V = ExecutionView;

    open spec fn view(&self) -> ExecutionView {
        ExecutionView {
            policy: self.policy@,
            parse_mode: self.parse_mode@,
            context_cluster: self.context_cluster,
            candidate_line_count: self.candidate_line_count,
            dropped_line_count: self.dropped_line_count,
            semantic_impact_radius: self.semantic_impact_radius,
            confidence_outcome: self.confidence_outcome,
            confidence_score: shown_text(self.confidence_score),
            confidence_threshold: shown_text(self.confidence_threshold),
            executor_scope: self.executor_scope,
            candidate_trace: candidate_trace::trace_views(self.candidate_trace@),
        }
    }
}

pub open spec fn execution_views(t: Seq<PolicyExecutionTrace>) -> Seq<ExecutionView> {
    t.map_values(|x: PolicyExecutionTrace| x@)
}

/// The trace of a policy that did nothing.
pub open spec fn idle_trace(policy: Seq<char>, mode: Seq<char>) -> ExecutionView {
    ExecutionView {
        policy,
        parse_mode: mode,
        context_cluster: 0,
        candidate_line_count: 0,
        dropped_line_count: 0,
        semantic_impact_radius: 0,
        confidence_outcome: None,
        confidence_score: None,
        confidence_threshold: None,
        executor_scope: RetryScopeStage::Full,
        candidate_trace: Seq::empty(),
    }
}

/// A run under way.
#[derive(Debug)]
pub struct PipelineState {
    pub current: String,
    pub parse: ParseCache,
    pub selected: Vec<PolicyEditCandidate>,
    pub all_violations: Vec<Violation>,
    pub all_edits: Vec<Edit>,
    pub all_warnings: Vec<String>,
    pub policy_traces: Vec<PolicyExecutionTrace>,
    /// How many lines a policy may edit at once when it runs again.
    pub retry_batch_size: Option<usize>,
}

/// The value of a run under way.
#[verifier::ext_equal]
pub ghost struct StateView {
    pub current: Seq<char>,
    pub parse: ParseCache,
    pub selected: Seq<CandidateView>,
    pub violations: Seq<ViolationView>,
    pub edits: Seq<EditView>,
    pub warnings: Seq<Seq<char>>,
    pub traces: Seq<ExecutionView>,
    pub retry_batch_size: Option<usize>,
}

impl View for PipelineState {
    type V = StateView;

    open spec fn view(&self) -> StateView {
        StateView {
            current: self.current@,
            parse: self.parse,
            selected: conflict_solver::views(self.selected@),
            violations: model::violation_views(self.all_violations@),
            edits: model::edit_views(self.all_edits@),
            warnings: text::views(self.all_warnings@),
            traces: execution_views(self.policy_traces@),
            retry_batch_size: self.retry_batch_size,
        }
    }
}

/// Whether a policy runs.
#[derive(Clone, Copy, Debug, PartialEq, Eq, Structural)]
pub enum Admission {
    Blocked,
    Skipped,
    Runs,
}

/// Whether a policy runs, by the options of the run.
pub open spec fn admission(options: PolicyRunOptions, policy: Seq<char>) -> Admission {
    if text::views(options.blocked_policies@).contains(policy) {
        Admission::Blocked
    } else if options.skips(policy) {
        Admission::Skipped
    } else {
        Admission::Runs
    }
}

/// The run after a policy was let in or kept out.
pub open spec fn after_admission(s: StateView, a: Admission, policy: Seq<char>) -> StateView {
    match a {
        Admission::Blocked => StateView {
            warnings: s.warnings.push("retry guard skipped policy '"@ + policy + "'"@),
            traces: s.traces.push(idle_trace(policy, "blocked"@)),
            ..s
        },
        Admission::Skipped => StateView {
            traces: s.traces.push(idle_trace(policy, "skipped"@)),
            ..s
        },
        Admission::Runs => s,
    }
}

/// Whether a policy had nothing to say.
pub open spec fn is_quiet(r: ResultView, current: Seq<char>) -> bool {
    r.edits.len() == 0 && r.violations.len() == 0 && (!r.changed || r.text == current)
}

/// How a policy's parse is called.
pub open spec fn parse_mode(is_semantic_rewrite: bool) -> Seq<char> {
    if is_semantic_rewrite {
        "hybrid"@
    } else {
        "tree-sitter"@
    }
}

/// The outcome of the confidence gate.
pub open spec fn outcome_of(y: CoordinatedPolicyStage) -> Option<PolicyDecisionOutcome> {
    match y.confidence {
        Some(d) => Some(d.outcome),
        None => None,
    }
}

/// The score of the confidence gate, and the threshold that it was held to.
pub open spec fn score_of(y: CoordinatedPolicyStage) -> (Option<Seq<char>>, Option<Seq<char>>) {
    match y.confidence {
        Some(d) => (Some(d.score@), Some(d.threshold@)),
        None => (None, None),
    }
}

/// The trace of a policy whose result is committed.
pub open spec fn commit_trace(
    y: CoordinatedPolicyStage,
    policy: Seq<char>,
    scope: RetryScopeStage,
    is_semantic_rewrite: bool,
) -> ExecutionView {
    ExecutionView {
        policy,
        parse_mode: parse_mode(is_semantic_rewrite),
        context_cluster: y.context_cluster,
        candidate_line_count: y.accepted_candidates@.len() as usize,
        dropped_line_count: y.dropped_line_count,
        semantic_impact_radius: y.convergence_signal.impact_radius,
        confidence_outcome: outcome_of(y),
        confidence_score: score_of(y).0,
        confidence_threshold: score_of(y).1,
        executor_scope: scope,
        candidate_trace: candidate_trace::trace_views(y.candidate_trace@),
    }
}

/// The run after a policy's result was committed.
pub open spec fn committed(
    s: StateView,
    y: CoordinatedPolicyStage,
    policy: Seq<char>,
    scope: RetryScopeStage,
    is_semantic_rewrite: bool,
    clang_invalidating: bool,
) -> StateView {
    StateView {
        current: y.result@.text,
        parse: if y.text_changed {
            s.parse.invalidated(is_semantic_rewrite, clang_invalidating)
        } else {
            s.parse
        },
        selected: s.selected + conflict_solver::views(y.accepted_candidates@),
        violations: s.violations + y.result@.violations + model::violation_views(
            y.conflict_violations@,
        ),
        edits: s.edits + y.result@.edits,
        warnings: s.warnings + y.result@.warnings,
        traces: s.traces.push(commit_trace(y, policy, scope, is_semantic_rewrite)),
        ..s
    }
}

/// The run after the checkpoint accepted a text; where the new tree was looked
/// at, it is kept.
pub open spec fn accepted(s: StateView, validated: bool) -> StateView {
    if validated {
        StateView { parse: ParseCache { tree: true, ..s.parse }, ..s }
    } else {
        s
    }
}

/// The run after a rollback in part: the recovered text is the current one, and
/// its tree is kept. A rewrite of symbols makes the parses useless.
pub open spec fn recovered(
    s: StateView,
    text: Seq<char>,
    edits: Seq<EditView>,
    warning: Seq<char>,
    is_semantic_rewrite: bool,
    clang_invalidating: bool,
) -> StateView {
    let parse = ParseCache { error_lines: false, tree: true, ..s.parse };
    StateView {
        current: text,
        parse: if is_semantic_rewrite {
            parse.invalidated(true, clang_invalidating)
        } else {
            parse
        },
        edits: s.edits + edits,
        warnings: s.warnings.push(warning),
        ..s
    }
}

/// The trace of a policy whose result is taken back in part.
pub open spec fn recovery_trace(
    y: CoordinatedPolicyStage,
    policy: Seq<char>,
    scope: RetryScopeStage,
    is_semantic_rewrite: bool,
    kept: nat,
) -> ExecutionView {
    ExecutionView {
        candidate_line_count: kept as usize,
        dropped_line_count: if y.result@.edits.len() > kept {
            (y.result@.edits.len() - kept) as usize
        } else {
            0
        },
        candidate_trace: Seq::empty(),
        ..commit_trace(y, policy, scope, is_semantic_rewrite)
    }
}

/// Whether a policy whose text was taken back runs again on fewer lines.
pub open spec fn runs_again(s: StateView, after_error_count: usize, retry_batch: usize) -> bool {
    s.retry_batch_size is None && after_error_count > 0 && retry_batch < line_text::lines_in(
        s.current,
    ).len()
}

/// What follows on a checkpoint.
#[derive(Debug)]
pub enum AfterCheckpoint {
    /// The policy is done.
    Done,
    /// The policy runs again. Where that changes nothing, the reason of the
    /// rollback is told.
    RunAgain { reason: String },
}

/// The run after the first checkpoint of a policy.
pub open spec fn after_checkpoint_state(
    s: StateView,
    y: CoordinatedPolicyStage,
    outcome: PolicyCheckpointResult,
    policy: Seq<char>,
    scope: RetryScopeStage,
    is_semantic_rewrite: bool,
    clang_invalidating: bool,
    retry_batch: usize,
) -> StateView {
    match outcome {
        PolicyCheckpointResult::Accept { validated } => accepted(
            committed(s, y, policy, scope, is_semantic_rewrite, clang_invalidating),
            validated,
        ),
        PolicyCheckpointResult::PartialRollback { recovered_text, recovered_edits, warning } => {
            let next = recovered(
                s,
                recovered_text@,
                model::edit_views(recovered_edits@),
                warning@,
                is_semantic_rewrite,
                clang_invalidating,
            );
            StateView {
                traces: next.traces.push(
                    recovery_trace(y, policy, scope, is_semantic_rewrite, recovered_edits@.len()),
                ),
                ..next
            }
        },
        PolicyCheckpointResult::Rollback { reason, after_error_count } => if runs_again(
            s,
            after_error_count,
            retry_batch,
        ) {
            StateView { retry_batch_size: Some(retry_batch), ..s }
        } else {
            StateView { warnings: s.warnings.push(reason@), ..s }
        },
    }
}

/// The run after the checkpoint of a policy that ran again. It leaves no trace
/// of its own where it was taken back in part.
pub open spec fn after_retry_state(
    s: StateView,
    y: CoordinatedPolicyStage,
    outcome: PolicyCheckpointResult,
    policy: Seq<char>,
    scope: RetryScopeStage,
    is_semantic_rewrite: bool,
    clang_invalidating: bool,
) -> StateView {
    match outcome {
        PolicyCheckpointResult::Accept { validated } => accepted(
            committed(s, y, policy, scope, is_semantic_rewrite, clang_invalidating),
            validated,
        ),
        PolicyCheckpointResult::PartialRollback { recovered_text, recovered_edits, warning } =>
            recovered(
            s,
            recovered_text@,
            model::edit_views(recovered_edits@),
            warning@,
            false,
            clang_invalidating,
        ),
        PolicyCheckpointResult::Rollback { reason, .. } => StateView {
            warnings: s.warnings.push(reason@),
            ..s
        },
    }
}

fn told_confidence(confidence: &Option<ConfidenceGateDecision>) -> (r: (
    Option<PolicyDecisionOutcome>,
    Option<String>,
    Option<String>,
))
    ensures
        match confidence {
            Some(d) => r.0 == Some(d.outcome) && shown_text(r.1) == Some(d.score@) && shown_text(
                r.2,
            ) == Some(d.threshold@),
            None => r.0 is None && r.1 is None && r.2 is None,
        },
{
    match confidence {
        Some(d) => (Some(d.outcome), Some(d.score.clone()), Some(d.threshold.clone())),
        None => (None, None, None),
    }
}

fn push_trace(traces: &mut Vec<PolicyExecutionTrace>, trace: PolicyExecutionTrace)
    ensures
        execution_views(final(traces)@) == execution_views(old(traces)@).push(trace@),
{
    let ghost was = traces@;
    let ghost view = trace@;
    traces.push(trace);
    assert(execution_views(traces@) =~= execution_views(was).push(view));
}

fn make_idle_trace(policy_name: &str, mode: &str) -> (r: PolicyExecutionTrace)
    ensures
        r@ == idle_trace(policy_name@, mode@),
{
    let r = PolicyExecutionTrace {
        policy: policy_name.to_owned(),
        parse_mode: mode.to_owned(),
        context_cluster: 0,
        candidate_line_count: 0,
        dropped_line_count: 0,
        semantic_impact_radius: 0,
        confidence_outcome: None,
        confidence_score: None,
        confidence_threshold: None,
        executor_scope: RetryScopeStage::Full,
        candidate_trace: Vec::new(),
    };
    assert(r@ =~= idle_trace(policy_name@, mode@));
    r
}

fn append_edits(list: &mut Vec<Edit>, more: Vec<Edit>)
    ensures
        model::edit_views(final(list)@) == model::edit_views(old(list)@) + model::edit_views(
            more@,
        ),
{
    let mut more = more;
    let ghost was = list@;
    let ghost added = more@;
    list.append(&mut more);
    assert(model::edit_views(list@) =~= model::edit_views(was) + model::edit_views(added));
}

fn append_violations(list: &mut Vec<Violation>, more: Vec<Violation>)
    ensures
        model::violation_views(final(list)@) == model::violation_views(old(list)@)
            + model::violation_views(more@),
{
    let mut more = more;
    let ghost was = list@;
    let ghost added = more@;
    list.append(&mut more);
    assert(model::violation_views(list@) =~= model::violation_views(was)
        + model::violation_views(added));
}

fn append_warnings(list: &mut Vec<String>, more: Vec<String>)
    ensures
        text::views(final(list)@) == text::views(old(list)@) + text::views(more@),
{
    let mut more = more;
    let ghost was = list@;
    let ghost added = more@;
    list.append(&mut more);
    assert(text::views(list@) =~= text::views(was) + text::views(added));
}

fn append_selected_candidates(
    selected: &mut Vec<PolicyEditCandidate>,
    candidates: Vec<PolicyEditCandidate>,
)
    ensures
        conflict_solver::views(final(selected)@) == conflict_solver::views(old(selected)@)
            + conflict_solver::views(candidates@),
{
    let mut candidates = candidates;
    let ghost was = selected@;
    let ghost added = candidates@;
    selected.append(&mut candidates);
    assert(conflict_solver::views(selected@) =~= conflict_solver::views(was)
        + conflict_solver::views(added));
}

fn mode_name(is_semantic_rewrite: bool) -> (r: String)
    ensures
        r@ == parse_mode(is_semantic_rewrite),
{
    if is_semantic_rewrite {
        "hybrid".to_owned()
    } else {
        "tree-sitter".to_owned()
    }
}

/// What a policy may do: its capabilities, and whether its edits are held to
/// the contract. A policy without settings follows guidelines.
pub fn prepare_policy_stage(policy_name: &str, semantic_hard_invariant: Option<bool>) -> (r:
    PreparedPolicyStage)
    ensures
        r.capability == catalog::named_capabilities(policy_name@),
        r.guidance_mode == match semantic_hard_invariant {
            Some(hard) => semantic_contract::guidance(policy_name@, hard),
            None => PolicyGuidanceMode::SoftGuideline,
        },
{
    let guidance_mode = match semantic_hard_invariant {
        Some(hard) => SemanticContract::policy_guidance_mode(policy_name, hard),
        None => PolicyGuidanceMode::SoftGuideline,
    };
    PreparedPolicyStage { capability: policy_catalog().capabilities(policy_name), guidance_mode }
}

impl PipelineState {
    /// A run that begins.
    pub fn new(text: &str, has_semantic_compdb: bool) -> (r: PipelineState)
        ensures
            r@ == (StateView {
                current: text@,
                parse: ParseCache::empty(has_semantic_compdb),
                selected: Seq::empty(),
                violations: Seq::empty(),
                edits: Seq::empty(),
                warnings: Seq::empty(),
                traces: Seq::empty(),
                retry_batch_size: None,
            }),
    {
        let r = PipelineState {
            current: text.to_owned(),
            parse: ParseCache::new(has_semantic_compdb),
            selected: Vec::new(),
            all_violations: Vec::new(),
            all_edits: Vec::new(),
            all_warnings: Vec::new(),
            policy_traces: Vec::new(),
            retry_batch_size: None,
        };
        assert(r@ =~= StateView {
            current: text@,
            parse: ParseCache::empty(has_semantic_compdb),
            selected: Seq::empty(),
            violations: Seq::empty(),
            edits: Seq::empty(),
            warnings: Seq::empty(),
            traces: Seq::empty(),
            retry_batch_size: None,
        });
        r
    }

    /// Lets a policy in, or keeps it out.
    pub fn admit_policy(&mut self, options: &PolicyRunOptions, policy_name: &str) -> (r: Admission)
        ensures
            r == admission(*options, policy_name@),
            final(self)@ == after_admission(old(self)@, r, policy_name@),
    {
        let ghost was = self@;
        if options.is_policy_blocked(policy_name) {
            let mut message = "retry guard skipped policy '".to_owned();
            message.append(policy_name);
            message.append("'");
            warn(&mut self.all_warnings, message);
            push_trace(&mut self.policy_traces, make_idle_trace(policy_name, "blocked"));
            assert(self@ =~= after_admission(was, Admission::Blocked, policy_name@));
            return Admission::Blocked;
        }
        if options.is_policy_skipped(policy_name) {
            push_trace(&mut self.policy_traces, make_idle_trace(policy_name, "skipped"));
            assert(self@ =~= after_admission(was, Admission::Skipped, policy_name@));
            return Admission::Skipped;
        }
        Admission::Runs
    }

    /// The number of lines that a policy may edit at once. It holds for one
    /// execution.
    pub fn take_retry_batch(&mut self) -> (r: Option<usize>)
        ensures
            r == old(self)@.retry_batch_size,
            final(self)@ == (StateView { retry_batch_size: None, ..old(self)@ }),
    {
        let r = self.retry_batch_size;
        self.retry_batch_size = None;
        r
    }

    /// Ends the stage of a policy that had nothing to say. Tells whether it
    /// did.
    pub fn finish_quiet_policy(&mut self, policy_name: &str, result: &PolicyResult) -> (r: bool)
        ensures
            r == is_quiet(result@, old(self)@.current),
            final(self)@ == if r {
                StateView {
                    traces: old(self)@.traces.push(idle_trace(policy_name@, "n/a"@)),
                    ..old(self)@
                }
            } else {
                old(self)@
            },
    {
        let ghost was = self@;
        assert(result@.edits.len() == result.edits@.len());
        assert(result@.violations.len() == result.violations@.len());
        if result.edits.len() == 0 && result.violations.len() == 0 && (!result.changed || str_eq(
            result.text.as_str(),
            self.current.as_str(),
        )) {
            push_trace(&mut self.policy_traces, make_idle_trace(policy_name, "n/a"));
            assert(self@ =~= StateView {
                traces: was.traces.push(idle_trace(policy_name@, "n/a"@)),
                ..was
            });
            return true;
        }
        false
    }

    /// Commits a policy's result.
    pub fn commit_policy_stage(
        &mut self,
        policy_name: &str,
        coordinated: CoordinatedPolicyStage,
        scope: RetryScopeStage,
        is_semantic_rewrite: bool,
        clang_invalidating: bool,
    )
        requires
            old(self).parse.clang_edits_since < usize::MAX,
        ensures
            final(self)@ == committed(
                old(self)@,
                coordinated,
                policy_name@,
                scope,
                is_semantic_rewrite,
                clang_invalidating,
            ),
    {
        let ghost was = self@;
        let ghost y = coordinated;
        let (confidence_outcome, confidence_score, confidence_threshold) = told_confidence(
            &coordinated.confidence,
        );
        let trace = PolicyExecutionTrace {
            policy: policy_name.to_owned(),
            parse_mode: mode_name(is_semantic_rewrite),
            context_cluster: coordinated.context_cluster,
            candidate_line_count: coordinated.accepted_candidates.len(),
            dropped_line_count: coordinated.dropped_line_count,
            semantic_impact_radius: coordinated.convergence_signal.impact_radius,
            confidence_outcome,
            confidence_score,
            confidence_threshold,
            executor_scope: scope,
            candidate_trace: coordinated.candidate_trace,
        };
        assert(trace@ =~= commit_trace(y, policy_name@, scope, is_semantic_rewrite));
        push_trace(&mut self.policy_traces, trace);
        append_selected_candidates(&mut self.selected, coordinated.accepted_candidates);
        self.current = coordinated.result.text;
        append_violations(&mut self.all_violations, coordinated.result.violations);
        append_violations(&mut self.all_violations, coordinated.conflict_violations);
        append_edits(&mut self.all_edits, coordinated.result.edits);
        append_warnings(&mut self.all_warnings, coordinated.result.warnings);
        if coordinated.text_changed {
            self.parse.invalidate(is_semantic_rewrite, clang_invalidating);
        }
        assert(self@ =~= committed(
            was,
            y,
            policy_name@,
            scope,
            is_semantic_rewrite,
            clang_invalidating,
        ));
    }

    /// Commits the result of a policy that cannot break code, and hands any
    /// other back for the checkpoint.
    pub fn commit_whitespace_safe(
        &mut self,
        policy_name: &str,
        coordinated: CoordinatedPolicyStage,
        scope: RetryScopeStage,
        whitespace_safe: bool,
        is_semantic_rewrite: bool,
        clang_invalidating: bool,
    ) -> (r: Option<CoordinatedPolicyStage>)
        requires
            old(self).parse.clang_edits_since < usize::MAX,
        ensures
            r is None <==> whitespace_safe && coordinated.text_changed,
            match r {
                None => final(self)@ == committed(
                    old(self)@,
                    coordinated,
                    policy_name@,
                    scope,
                    is_semantic_rewrite,
                    clang_invalidating,
                ),
                Some(y) => y == coordinated && final(self)@ == old(self)@,
            },
    {
        if whitespace_safe && coordinated.text_changed {
            self.commit_policy_stage(
                policy_name,
                coordinated,
                scope,
                is_semantic_rewrite,
                clang_invalidating,
            );
            return None;
        }
        Some(coordinated)
    }

    fn keep_validated_tree(&mut self, validated: bool)
        ensures
            final(self)@ == accepted(old(self)@, validated),
    {
        if validated {
            self.parse.tree = true;
        }
        assert(self@ =~= accepted(old(self)@, validated));
    }

    fn recover(
        &mut self,
        recovered_text: String,
        recovered_edits: Vec<Edit>,
        warning: String,
        is_semantic_rewrite: bool,
        clang_invalidating: bool,
    )
        requires
            old(self).parse.clang_edits_since < usize::MAX,
        ensures
            final(self)@ == recovered(
                old(self)@,
                recovered_text@,
                model::edit_views(recovered_edits@),
                warning@,
                is_semantic_rewrite,
                clang_invalidating,
            ),
    {
        let ghost was = self@;
        warn(&mut self.all_warnings, warning);
        self.current = recovered_text;
        self.parse.error_lines = false;
        append_edits(&mut self.all_edits, recovered_edits);
        self.parse.tree = true;
        if is_semantic_rewrite {
            self.parse.invalidate(true, clang_invalidating);
        }
        assert(self@ =~= recovered(
            was,
            recovered_text@,
            model::edit_views(recovered_edits@),
            warning@,
            is_semantic_rewrite,
            clang_invalidating,
        ));
    }

    /// Acts on the checkpoint of a policy. After a rollback, the policy may run
    /// again on fewer lines.
    pub fn after_checkpoint(
        &mut self,
        policy_name: &str,
        coordinated: CoordinatedPolicyStage,
        outcome: PolicyCheckpointResult,
        scope: RetryScopeStage,
        is_semantic_rewrite: bool,
        clang_invalidating: bool,
        retry_batch: usize,
    ) -> (r: AfterCheckpoint)
        requires
            old(self).parse.clang_edits_since < usize::MAX,
        ensures
            final(self)@ == after_checkpoint_state(
                old(self)@,
                coordinated,
                outcome,
                policy_name@,
                scope,
                is_semantic_rewrite,
                clang_invalidating,
                retry_batch,
            ),
            match outcome {
                PolicyCheckpointResult::Rollback { reason, after_error_count } => if runs_again(
                    old(self)@,
                    after_error_count,
                    retry_batch,
                ) {
                    r == (AfterCheckpoint::RunAgain { reason })
                } else {
                    r is Done
                },
                _ => r is Done,
            },
    {
        let ghost was = self@;
        match outcome {
            PolicyCheckpointResult::Accept { validated } => {
                self.commit_policy_stage(
                    policy_name,
                    coordinated,
                    scope,
                    is_semantic_rewrite,
                    clang_invalidating,
                );
                self.keep_validated_tree(validated);
                AfterCheckpoint::Done
            },
            PolicyCheckpointResult::PartialRollback {
                recovered_text,
                recovered_edits,
                warning,
            } => {
                let ghost y = coordinated;
                let kept = recovered_edits.len();
                let all = coordinated.result.edits.len();
                assert(y.result@.edits.len() == all);
                let (confidence_outcome, confidence_score, confidence_threshold) =
                    told_confidence(&coordinated.confidence);
                let trace = PolicyExecutionTrace {
                    policy: policy_name.to_owned(),
                    parse_mode: mode_name(is_semantic_rewrite),
                    context_cluster: coordinated.context_cluster,
                    candidate_line_count: kept,
                    dropped_line_count: if all > kept {
                        all - kept
                    } else {
                        0
                    },
                    semantic_impact_radius: coordinated.convergence_signal.impact_radius,
                    confidence_outcome,
                    confidence_score,
                    confidence_threshold,
                    executor_scope: scope,
                    candidate_trace: Vec::new(),
                };
                assert(trace@ =~= recovery_trace(
                    y,
                    policy_name@,
                    scope,
                    is_semantic_rewrite,
                    kept as nat,
                ));
                self.recover(
                    recovered_text,
                    recovered_edits,
                    warning,
                    is_semantic_rewrite,
                    clang_invalidating,
                );
                let ghost next = self@;
                push_trace(&mut self.policy_traces, trace);
                assert(self@ =~= StateView { traces: next.traces.push(trace@), ..next });
                AfterCheckpoint::Done
            },
            PolicyCheckpointResult::Rollback { reason, after_error_count } => {
                let lines = split_lines(self.current.as_str()).len();
                if self.retry_batch_size.is_none() && after_error_count > 0 && retry_batch
                    < lines {
                    self.retry_batch_size = Some(retry_batch);
                    assert(self@ =~= StateView { retry_batch_size: Some(retry_batch), ..was });
                    return AfterCheckpoint::RunAgain { reason };
                }
                warn(&mut self.all_warnings, reason);
                assert(self@ =~= StateView { warnings: was.warnings.push(reason@), ..was });
                AfterCheckpoint::Done
            },
        }
    }

    /// Ends the stage of a policy that ran again and changed nothing: the
    /// reason of the rollback is told. Tells whether it changed nothing.
    pub fn finish_idle_retry(&mut self, retried_text: &str, reason: &str) -> (r: bool)
        ensures
            r == (retried_text@ == old(self)@.current),
            final(self)@ == if r {
                StateView { warnings: old(self)@.warnings.push(reason@), ..old(self)@ }
            } else {
                old(self)@
            },
    {
        let ghost was = self@;
        if str_eq(retried_text, self.current.as_str()) {
            warn(&mut self.all_warnings, reason.to_owned());
            assert(self@ =~= StateView { warnings: was.warnings.push(reason@), ..was });
            return true;
        }
        false
    }

    /// Acts on the checkpoint of a policy that ran again.
    pub fn after_retry_checkpoint(
        &mut self,
        policy_name: &str,
        coordinated: CoordinatedPolicyStage,
        outcome: PolicyCheckpointResult,
        scope: RetryScopeStage,
        is_semantic_rewrite: bool,
        clang_invalidating: bool,
    )
        requires
            old(self).parse.clang_edits_since < usize::MAX,
        ensures
            final(self)@ == after_retry_state(
                old(self)@,
                coordinated,
                outcome,
                policy_name@,
                scope,
                is_semantic_rewrite,
                clang_invalidating,
            ),
    {
        let ghost was = self@;
        match outcome {
            PolicyCheckpointResult::Accept { validated } => {
                self.commit_policy_stage(
                    policy_name,
                    coordinated,
                    scope,
                    is_semantic_rewrite,
                    clang_invalidating,
                );
                self.keep_validated_tree(validated);
            },
            PolicyCheckpointResult::PartialRollback {
                recovered_text,
                recovered_edits,
                warning,
            } => {
                self.recover(recovered_text, recovered_edits, warning, false, clang_invalidating);
            },
            PolicyCheckpointResult::Rollback { reason, after_error_count: _ } => {
                warn(&mut self.all_warnings, reason);
                assert(self@ =~= StateView { warnings: was.warnings.push(reason@), ..was });
            },
        }
    }

    /// The result of a run: what the policies' edits come to once all claims on
    /// lines are settled. A text that changed without an edit is not handed out.
    pub fn finish(self, input_text: &str, controller: ConvergenceController) -> (r: PolicyResult)
        ensures
            ({
                let edits = convergence::reported_edits(self@.edits, controller@.suppressed);
                r@ == (ResultView {
                    text: if edits.len() == 0 {
                        input_text@
                    } else {
                        self@.current
                    },
                    violations: convergence::reported_violations(
                        self@.violations,
                        controller@.suppressed,
                    ),
                    edits,
                    warnings: if edits.len() == 0 && self@.current != input_text@ {
                        self@.warnings.push(edit_utils::untracked_delta_warning())
                    } else {
                        self@.warnings
                    },
                    changed: true,
                })
            }),
    {
        let finalized = controller.finalize(
            self.all_edits,
            self.all_violations,
            self.all_warnings,
        );
        let mut warnings = finalized.warnings;
        assert(model::edit_views(finalized.edits@).len() == finalized.edits@.len());
        let text = stabilize_output_text(
            input_text,
            self.current.as_str(),
            finalized.edits.as_slice(),
            &mut warnings,
        );
        PolicyResult {
            text,
            violations: finalized.violations,
            edits: finalized.edits,
            warnings,
            changed: true,
        }
    }
}

/// A policy that is kept out changes neither the text nor the edits.
pub proof fn lemma_kept_out_changes_nothing(s: StateView, a: Admission, policy: Seq<char>)
    requires
        a != Admission::Runs,
    ensures
        after_admission(s, a, policy).current == s.current,
        after_admission(s, a, policy).edits == s.edits,
        after_admission(s, a, policy).violations == s.violations,
        after_admission(s, a, policy).selected == s.selected,
{
}

/// A rollback leaves the text as it was, whether the policy runs again or not.
pub proof fn lemma_rollback_keeps_text(
    s: StateView,
    y: CoordinatedPolicyStage,
    outcome: PolicyCheckpointResult,
    policy: Seq<char>,
    scope: RetryScopeStage,
    is_semantic_rewrite: bool,
    clang_invalidating: bool,
    retry_batch: usize,
)
    requires
        outcome is Rollback,
    ensures
        ({
            let next = after_checkpoint_state(
                s,
                y,
                outcome,
                policy,
                scope,
                is_semantic_rewrite,
                clang_invalidating,
                retry_batch,
            );
            next.current == s.current && next.edits == s.edits && next.selected == s.selected
        }),
{
}

/// After a parse nothing is left to parse.
pub proof fn lemma_parse_is_complete(cache: ParseCache)
    ensures
        !cache.parsed().planned().tree,
        !cache.parsed().planned().clang,
        cache.parsed().semantic,
        cache.parsed().comment_lines,
{
}

/// What an accepted text leaves: it is the current one, its edits, candidates,
/// violations and warnings come behind those before, and, where it changed, it
/// has to be parsed again, unless its tree was looked at.
pub proof fn lemma_accepted_text_is_current(
    s: StateView,
    y: CoordinatedPolicyStage,
    outcome: PolicyCheckpointResult,
    policy: Seq<char>,
    scope: RetryScopeStage,
    is_semantic_rewrite: bool,
    clang_invalidating: bool,
    retry_batch: usize,
)
    requires
        outcome is Accept,
    ensures
        ({
            let next = after_checkpoint_state(
                s,
                y,
                outcome,
                policy,
                scope,
                is_semantic_rewrite,
                clang_invalidating,
                retry_batch,
            );
            &&& next.current == y.result@.text
            &&& next.edits == s.edits + y.result@.edits
            &&& next.warnings == s.warnings + y.result@.warnings
            &&& next.selected == s.selected + conflict_solver::views(y.accepted_candidates@)
            &&& next.violations == s.violations + y.result@.violations + model::violation_views(
                y.conflict_violations@,
            )
            &&& next.traces.len() == s.traces.len() + 1
            &&& next.traces.last().policy == policy
            &&& y.text_changed ==> next.parse.planned().tree == !outcome->validated
            &&& y.text_changed ==> !next.parse.semantic && !next.parse.comment_lines
            &&& y.text_changed && is_semantic_rewrite && clang_invalidating ==> !next.parse.clang
            &&& y.text_changed && !(is_semantic_rewrite && clang_invalidating) ==> next.parse.clang
                == s.parse.clang
            &&& next.retry_batch_size == s.retry_batch_size
        }),
{
}

/// What a rollback in part leaves: the text that was recovered, with the edits
/// that stayed and a warning; no candidate is selected.
pub proof fn lemma_recovered_text_is_current(
    s: StateView,
    y: CoordinatedPolicyStage,
    outcome: PolicyCheckpointResult,
    policy: Seq<char>,
    scope: RetryScopeStage,
    is_semantic_rewrite: bool,
    clang_invalidating: bool,
    retry_batch: usize,
)
    requires
        outcome is PartialRollback,
    ensures
        ({
            let next = after_checkpoint_state(
                s,
                y,
                outcome,
                policy,
                scope,
                is_semantic_rewrite,
                clang_invalidating,
                retry_batch,
            );
            &&& next.current == outcome->recovered_text@
            &&& next.edits == s.edits + model::edit_views(outcome->recovered_edits@)
            &&& next.warnings == s.warnings.push(outcome->warning@)
            &&& next.selected == s.selected && next.violations == s.violations
        }),
        ({
            let next = after_retry_state(
                s,
                y,
                outcome,
                policy,
                scope,
                is_semantic_rewrite,
                clang_invalidating,
            );
            &&& next.current == outcome->recovered_text@
            &&& next.edits == s.edits + model::edit_views(outcome->recovered_edits@)
            &&& next.traces == s.traces
        }),
{
}

/// When a policy runs again: once, after a rollback of a text with errors, on
/// fewer lines than the text has. Else its rollback is told.
pub proof fn lemma_when_a_policy_runs_again(
    s: StateView,
    y: CoordinatedPolicyStage,
    outcome: PolicyCheckpointResult,
    policy: Seq<char>,
    scope: RetryScopeStage,
    is_semantic_rewrite: bool,
    clang_invalidating: bool,
    retry_batch: usize,
)
    requires
        outcome is Rollback,
    ensures
        ({
            let next = after_checkpoint_state(
                s,
                y,
                outcome,
                policy,
                scope,
                is_semantic_rewrite,
                clang_invalidating,
                retry_batch,
            );
            let again = s.retry_batch_size is None && outcome->after_error_count > 0 && retry_batch
                < line_text::lines_in(s.current).len();
            &&& again ==> next.retry_batch_size == Some(retry_batch) && next.warnings == s.warnings
            &&& !again ==> next.retry_batch_size == s.retry_batch_size && next.warnings
                == s.warnings.push(outcome->reason@)
        }),
{
}

/// Who runs: a policy that is blocked does not, nor does one that may be
/// skipped; every other does. One that is blocked is told of.
pub proof fn lemma_who_runs(options: PolicyRunOptions, policy: Seq<char>, s: StateView)
    ensures
        ({
            let blocked = exists|k: int|
                0 <= k < options.blocked_policies@.len() && (
                #[trigger] options.blocked_policies@[k])@ == policy;
            let skipped = options.skip_zero_edit_policies is Some && exists|k: int|
                0 <= k < options.skip_zero_edit_policies->Some_0@.len() && (
                #[trigger] options.skip_zero_edit_policies->Some_0@[k])@ == policy;
            let a = admission(options, policy);
            &&& a == Admission::Runs <==> !blocked && !skipped
            &&& a == Admission::Blocked <==> blocked
            &&& blocked ==> after_admission(s, a, policy).warnings.len() == s.warnings.len() + 1
            &&& !blocked ==> after_admission(s, a, policy).warnings == s.warnings
            &&& a == Admission::Runs ==> after_admission(s, a, policy) == s
        }),
{
    let list = options.blocked_policies@;
    if text::views(list).contains(policy) {
        let k = choose|k: int| 0 <= k < text::views(list).len() && text::views(list)[k] == policy;
        assert(list[k]@ == policy);
    }
    if exists|k: int| 0 <= k < list.len() && (#[trigger] list[k])@ == policy {
        let k = choose|k: int| 0 <= k < list.len() && (#[trigger] list[k])@ == policy;
        assert(text::views(list)[k] == policy);
    }
    if options.skip_zero_edit_policies is Some {
        let more = options.skip_zero_edit_policies->Some_0@;
        if text::views(more).contains(policy) {
            let k = choose|k: int|
                0 <= k < text::views(more).len() && text::views(more)[k] == policy;
            assert(more[k]@ == policy);
        }
        if exists|k: int| 0 <= k < more.len() && (#[trigger] more[k])@ == policy {
            let k = choose|k: int| 0 <= k < more.len() && (#[trigger] more[k])@ == policy;
            assert(text::views(more)[k] == policy);
        }
    }
}

/// A policy that has nothing to say proposes neither an edit nor a violation,
/// nor another text.
pub proof fn lemma_quiet_policies(r: ResultView, current: Seq<char>)
    ensures
        is_quiet(r, current) ==> r.edits.len() == 0 && r.violations.len() == 0,
        r.edits.len() > 0 || r.violations.len() > 0 ==> !is_quiet(r, current),
        r.changed && r.text != current ==> !is_quiet(r, current),
        r.edits.len() == 0 && r.violations.len() == 0 && !r.changed ==> is_quiet(r, current),
        r.edits.len() == 0 && r.violations.len() == 0 && r.text == current ==> is_quiet(
            r,
            current,
        ),
{
}

} // verus!
