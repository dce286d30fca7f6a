//! Sets a policy's result against those of the policies before it.
use std::collections::BTreeSet;
use vstd::prelude::*;

use crate::catalog;
use crate::catalog::{policy_catalog, PolicyCapabilities};
use crate::conflict_detector;
use crate::conflict_detector::PolicyConflictDetector;
use crate::conflict_solver;
use crate::conflict_solver::{GlobalConflictSolver, SolverTuning};
use crate::context_tracker;
use crate::context_tracker::{candidate_confidence, BlockContextKind};
use crate::convergence;
use crate::convergence::{ConvergenceController, ConvergencePolicySignal};
use crate::edit_candidate::{CandidateView, PolicyEditCandidate};
use crate::gate_decision::ConfidenceGateDecision;
use crate::line_text;
use crate::lines::extend_lines;
use crate::model;
use crate::model::{warn, Edit, EditView, PolicyResult, ResultView, Violation};
use crate::pipeline::candidate_trace;
use crate::pipeline::candidate_trace::{build_policy_candidate_trace, PolicyCandidateTrace};
use crate::pipeline::edit_utils;
use crate::pipeline::edit_utils::{edit_lines, has_nonlocal_change, normalize_edit_coverage};
use crate::pipeline::stage;
use crate::pipeline::stage::{revert_untracked, ExecutedPolicyStage};
use crate::pipeline::suppression;
use crate::pipeline::suppression::suppress_lines_impl;
use crate::proposer;
use crate::proposer::{
    EditEvidence, EditPrints, ProposalContext, ProposerController, StyleWeights,
};
use crate::run_options::RetryScopeStage;
use crate::text;
use crate::text::{decimal_of, str_eq};

verus! {

broadcast use {
    vstd::std_specs::btree::group_btree_axioms,
    vstd::laws_cmp::group_laws_cmp,
};

/// What proposals depend on besides a policy's result.
#[derive(Clone, Copy, Debug)]
pub struct ProposalSettings<'a> {
    pub available: bool,
    pub comment_lines: Option<&'a BTreeSet<usize>>,
    /// Whether the scopes of the file are known.
    pub scopes_known: bool,
    /// The modifiers of the policies in the file's kind, and in each kind of block.
    pub file_mods: &'a [u32],
    pub block_mods: &'a [Vec<u32>],
    pub confidence_penalty: i64,
    pub trust_deficit_penalty: i64,
    pub richness_radius: usize,
    pub style: StyleWeights,
}

impl ProposalSettings<'_> {
    /// Whether there is a modifier for every policy.
    pub open spec fn valid(self) -> bool {
        context_tracker::are_batches(
            self.file_mods@,
            context_tracker::batch_views(self.block_mods@),
        )
    }
}

/// The line and the block of each edit.
pub open spec fn edit_blocks(edits: Seq<EditView>, evidence: Seq<EditEvidence>) -> Seq<
    (usize, Option<BlockContextKind>),
> {
    Seq::new(edits.len(), |i: int| (edits[i].line, evidence[i].block_at))
}

/// The score that the edits of a stage were given, if they were weighed.
pub open spec fn stage_score(x: ExecutedPolicyStage) -> Option<i64> {
    match x.confidence {
        Some(d) => Some(d.score_amount),
        None => None,
    }
}

/// Whether the score of a stage can be scaled.
pub open spec fn has_fair_score(x: ExecutedPolicyStage) -> bool {
    stage_score(x) matches Some(score) ==> -(i64::MAX / 2) <= score <= i64::MAX / 2
}

/// The confidence in the edits of a stage.
pub open spec fn stage_confidence(
    x: ExecutedPolicyStage,
    policy: Seq<char>,
    evidence: Seq<EditEvidence>,
    s: ProposalSettings,
) -> int {
    context_tracker::confidence_of(
        stage_score(x),
        s.file_mods@,
        context_tracker::batch_views(s.block_mods@),
        policy,
        s.scopes_known,
        edit_blocks(x.result@.edits, evidence),
    )
}

/// The settings with the signal, the capabilities and the confidence of a
/// policy.
pub open spec fn proposal_context<'a>(
    s: ProposalSettings<'a>,
    signal: &'a ConvergencePolicySignal,
    capability: PolicyCapabilities,
    confidence: i64,
) -> ProposalContext<'a> {
    ProposalContext {
        available: s.available,
        comment_lines: s.comment_lines,
        convergence_signal: signal,
        capability,
        confidence,
        confidence_penalty: s.confidence_penalty,
        trust_deficit_penalty: s.trust_deficit_penalty,
        richness_radius: s.richness_radius,
        style: s.style,
    }
}

/// A sum that stops at the largest number there is.
pub open spec fn capped_sum(a: usize, b: nat) -> usize {
    if a + b >= usize::MAX {
        usize::MAX
    } else {
        (a + b) as usize
    }
}

/// The candidates of a list that are not on some lines.
pub open spec fn off_lines(c: Seq<CandidateView>, lines: Set<usize>) -> Seq<CandidateView>
    decreases c.len(),
{
    if c.len() == 0 {
        Seq::empty()
    } else if lines.contains(c.last().line) {
        off_lines(c.drop_last(), lines)
    } else {
        off_lines(c.drop_last(), lines).push(c.last())
    }
}

/// The candidates of a list that are on some lines.
pub open spec fn on_lines(c: Seq<CandidateView>, lines: Set<usize>) -> Seq<CandidateView>
    decreases c.len(),
{
    if c.len() == 0 {
        Seq::empty()
    } else if lines.contains(c.last().line) {
        on_lines(c.drop_last(), lines).push(c.last())
    } else {
        on_lines(c.drop_last(), lines)
    }
}

/// A result with one more warning.
pub open spec fn warned(r: ResultView, warning: Seq<char>) -> ResultView {
    ResultView { warnings: r.warnings.push(warning), ..r }
}

/// A warning that counts the lines of a policy.
pub open spec fn counted_warning(
    head: Seq<char>,
    count: nat,
    middle: Seq<char>,
    policy: Seq<char>,
    tail: Seq<char>,
) -> Seq<char> {
    head + text::decimal(count) + middle + policy + tail
}

/// A result without the lines that the rules hold back.
pub open spec fn guarded(
    before: Seq<char>,
    r: ResultView,
    zones: Set<usize>,
    clauses: Set<usize>,
    policy: Seq<char>,
) -> ResultView {
    let held = suppression::suppressed(before, r, zones.union(clauses));
    let first = if zones.len() > 0 {
        warned(
            held,
            counted_warning(
                "guardian controller: dropped "@,
                zones.len(),
                " line(s) for '"@,
                policy,
                "' touching disallowed zones"@,
            ),
        )
    } else {
        held
    };
    if clauses.len() > 0 {
        warned(
            first,
            counted_warning(
                "guardian controller: blocked "@,
                clauses.len(),
                " line(s) for '"@,
                policy,
                "' due to hard semantic constraints"@,
            ),
        )
    } else {
        first
    }
}

/// A result after the solver: lines that lose are taken back; a rewrite of
/// symbols is taken back as a whole; and a batch that moved lines, of a policy
/// that may keep it, stays.
pub open spec fn arbitrated(
    before: Seq<char>,
    r: ResultView,
    dropped: Set<usize>,
    hard: Set<usize>,
    capability: PolicyCapabilities,
    policy: Seq<char>,
) -> ResultView {
    let told = if hard.len() > 0 {
        warned(
            r,
            counted_warning(
                "global conflict solver: blocked "@,
                hard.len(),
                " line(s) for '"@,
                policy,
                "' due to hard semantic constraints"@,
            ),
        )
    } else {
        r
    };
    if dropped.len() == 0 {
        told
    } else if capability.semantic_rewrite {
        warned(
            ResultView { text: before, edits: Seq::empty(), changed: false, ..told },
            "global conflict solver: reverted semantic rewrite '"@ + policy + "' because "@
                + text::decimal(dropped.len())
                + " conflicting line(s) would cause partial propagation"@,
        )
    } else if keeps_batch(before, told, policy) {
        warned(
            told,
            "global conflict solver: kept non-local '"@ + policy + "' batch ("@ + text::decimal(
                dropped.len(),
            ) + " conflicting line(s)) to avoid unsafe partial rollback"@,
        )
    } else {
        warned(
            suppression::suppressed(before, told, dropped),
            counted_warning(
                "global conflict solver: dropped "@,
                dropped.len(),
                " conflicting line(s) for '"@,
                policy,
                "' before commit"@,
            ),
        )
    }
}

/// Whether a policy keeps a batch that moved lines.
pub open spec fn keeps_batch(before: Seq<char>, r: ResultView, policy: Seq<char>) -> bool {
    catalog::named_behavior(policy).keeps_nonlocal_batch && line_text::lines_in(before).len()
        != line_text::lines_in(r.text).len()
}

/// How many lines the solver took from a policy.
pub open spec fn solver_loss(
    before: Seq<char>,
    r: ResultView,
    dropped: Set<usize>,
    capability: PolicyCapabilities,
    policy: Seq<char>,
) -> nat {
    if !capability.semantic_rewrite && keeps_batch(before, r, policy) {
        0
    } else {
        dropped.len()
    }
}

/// A result after all policies before this one had their say.
pub open spec fn settled(
    claims: Map<usize, (Seq<char>, u16)>,
    before: Seq<char>,
    r: ResultView,
    policy: Seq<char>,
    priority: u16,
) -> ResultView {
    stage::tracked_only(
        before,
        edit_utils::covered(policy, before, convergence::reconciled(claims, before, r, policy, priority)),
        "post-arbiter guard"@,
        policy,
    )
}

/// A policy's result as it will be committed.
#[derive(Debug)]
pub struct CoordinatedPolicyStage {
    pub result: PolicyResult,
    pub accepted_candidates: Vec<PolicyEditCandidate>,
    pub candidate_trace: Vec<PolicyCandidateTrace>,
    pub conflict_violations: Vec<Violation>,
    pub context_cluster: u64,
    pub confidence: Option<ConfidenceGateDecision>,
    pub dropped_line_count: usize,
    pub convergence_signal: ConvergencePolicySignal,
    pub text_changed: bool,
}

/// What the solver decided among the candidates of a policy.
pub ghost struct Ruling {
    pub accepted: Seq<CandidateView>,
    pub dropped: Set<usize>,
    pub hard: Set<usize>,
}

/// Whether a stage is what a ruling makes of a policy's result.
pub open spec fn is_coordinated(
    y: CoordinatedPolicyStage,
    x: ExecutedPolicyStage,
    before: Seq<char>,
    policy: Seq<char>,
    candidates: Seq<CandidateView>,
    ruling: Ruling,
    claims: Map<usize, (Seq<char>, u16)>,
    priority: u16,
    scope_stage: RetryScopeStage,
    tuning: SolverTuning,
) -> bool {
    let zones = proposer::zone_lines(candidates, x.capability);
    let clauses = proposer::clause_lines(candidates, x.capability);
    let held = guarded(before, x.result@, zones, clauses, policy);
    let kept_lines = edit_utils::changed_lines(y.result@.edits);
    &&& y.result@ == settled(
        claims,
        before,
        arbitrated(before, held, ruling.dropped, ruling.hard, x.capability, policy),
        policy,
        priority,
    )
    &&& conflict_solver::views(y.accepted_candidates@) == on_lines(ruling.accepted, kept_lines)
    &&& candidate_trace::trace_views(y.candidate_trace@) == candidate_trace::traces(
        candidates,
        scope_stage,
        tuning,
        candidate_trace::Fates {
            kept: kept_lines,
            zones,
            hard: clauses.union(ruling.hard),
            dropped: ruling.dropped,
        },
    )
    &&& y.context_cluster == x.context_cluster
    &&& y.confidence == x.confidence
    &&& y.dropped_line_count == capped_sum(
        capped_sum(
            capped_sum(x.dropped_line_count, zones.union(clauses).len()),
            solver_loss(before, held, ruling.dropped, x.capability, policy),
        ),
        (ruling.accepted.len() - on_lines(ruling.accepted, kept_lines).len()) as nat,
    )
    &&& y.convergence_signal == (ConvergencePolicySignal {
        solver_dropped_lines: capped_sum(
            ruling.dropped.len() as usize,
            zones.union(clauses).len(),
        ),
        hard_blocked_lines: clauses.union(ruling.hard).len() as usize,
        ..x.convergence_signal
    })
    &&& y.text_changed == (y.result@.text != before)
}

/// Whether the solver was asked for the candidates that the rules let through.
pub open spec fn is_ruling(
    ruling: Ruling,
    candidates: Seq<CandidateView>,
    capability: PolicyCapabilities,
    selected: Seq<CandidateView>,
    scope_stage: RetryScopeStage,
    tuning: SolverTuning,
) -> bool {
    conflict_solver::is_outcome(
        off_lines(
            proposer::allowed_of(candidates, capability),
            proposer::zone_lines(candidates, capability).union(
                proposer::clause_lines(candidates, capability),
            ),
        ),
        selected,
        scope_stage,
        tuning,
        ruling.accepted,
        ruling.dropped,
        ruling.hard,
    )
}

/// What the policies before this one, and those after it, take from the
/// coordination: the claims on lines, and the edits that are remembered.
pub open spec fn is_recorded(
    x: ExecutedPolicyStage,
    before: Seq<char>,
    policy: Seq<char>,
    candidates: Seq<CandidateView>,
    ruling: Ruling,
    controller: convergence::ControllerView,
    controller_after: convergence::ControllerView,
    priority: u16,
) -> bool {
    let held = guarded(
        before,
        x.result@,
        proposer::zone_lines(candidates, x.capability),
        proposer::clause_lines(candidates, x.capability),
        policy,
    );
    let told = arbitrated(before, held, ruling.dropped, ruling.hard, x.capability, policy);
    &&& controller_after.claims == convergence::with_claims(
        controller.claims,
        convergence::reconciled(controller.claims, before, told, policy, priority).edits,
        policy,
        priority,
    )
    &&& controller_after.suppressed == controller.suppressed.union(
        convergence::won_lines(controller.claims, told.edits, policy, priority),
    )
}

/// Whether the detector saw the edits that are committed.
pub open spec fn is_observed(
    y: CoordinatedPolicyStage,
    policy: Seq<char>,
    state: conflict_detector::DetectorView,
    after: conflict_detector::DetectorView,
) -> bool {
    if state.enabled {
        (after, model::violation_views(y.conflict_violations@)) == conflict_detector::observed(
            state,
            policy,
            y.result@.edits,
            y.result@.edits.len() as int,
        )
    } else {
        after == state && y.conflict_violations@.len() == 0
    }
}

/// The candidates that a stage proposes.
pub open spec fn stage_candidates(
    x: ExecutedPolicyStage,
    policy: Seq<char>,
    evidence: Seq<EditEvidence>,
    prints: Seq<EditPrints>,
    settings: ProposalSettings,
) -> Seq<CandidateView> {
    proposer::proposed(
        policy,
        x.result@.edits,
        evidence,
        prints,
        proposal_context(
            settings,
            &x.convergence_signal,
            x.capability,
            stage_confidence(x, policy, evidence, settings) as i64,
        ),
        x.result@.edits.len() as int,
    )
}

fn drop_lines(candidates: Vec<PolicyEditCandidate>, lines: &BTreeSet<usize>) -> (r: Vec<
    PolicyEditCandidate,
>)
    ensures
        conflict_solver::views(r@) == off_lines(conflict_solver::views(candidates@), lines@),
{
    let ghost all = conflict_solver::views(candidates@);
    let mut r: Vec<PolicyEditCandidate> = Vec::new();
    let mut i: usize = 0;
    assert(conflict_solver::views(r@) =~= Seq::empty());
    while i < candidates.len()
        invariant
            i <= candidates@.len(),
            all == conflict_solver::views(candidates@),
            conflict_solver::views(r@) == off_lines(all.take(i as int), lines@),
        decreases candidates@.len() - i,
    {
        assert(all.take(i + 1).drop_last() =~= all.take(i as int));
        assert(all.take(i + 1).last() == candidates@[i as int]@);
        if !lines.contains(&candidates[i].line) {
            let ghost was = r@;
            let copy = candidates[i].clone();
            r.push(copy);
            assert(conflict_solver::views(r@) =~= conflict_solver::views(was).push(
                candidates@[i as int]@,
            ));
        }
        i += 1;
    }
    assert(all.take(all.len() as int) =~= all);
    r
}

fn keep_lines(candidates: Vec<PolicyEditCandidate>, lines: &BTreeSet<usize>) -> (r: Vec<
    PolicyEditCandidate,
>)
    ensures
        conflict_solver::views(r@) == on_lines(conflict_solver::views(candidates@), lines@),
        r@.len() <= candidates@.len(),
{
    let ghost all = conflict_solver::views(candidates@);
    let mut r: Vec<PolicyEditCandidate> = Vec::new();
    let mut i: usize = 0;
    assert(conflict_solver::views(r@) =~= Seq::empty());
    while i < candidates.len()
        invariant
            i <= candidates@.len(),
            all == conflict_solver::views(candidates@),
            conflict_solver::views(r@) == on_lines(all.take(i as int), lines@),
            r@.len() <= i,
        decreases candidates@.len() - i,
    {
        assert(all.take(i + 1).drop_last() =~= all.take(i as int));
        assert(all.take(i + 1).last() == candidates@[i as int]@);
        if lines.contains(&candidates[i].line) {
            let ghost was = r@;
            let copy = candidates[i].clone();
            r.push(copy);
            assert(conflict_solver::views(r@) =~= conflict_solver::views(was).push(
                candidates@[i as int]@,
            ));
        }
        i += 1;
    }
    assert(all.take(all.len() as int) =~= all);
    r
}

fn add_capped(a: usize, b: usize) -> (r: usize)
    ensures
        r == capped_sum(a, b as nat),
{
    if b > usize::MAX - a {
        usize::MAX
    } else {
        a + b
    }
}

fn add_warning(result: PolicyResult, warning: String) -> (r: PolicyResult)
    ensures
        r@ == warned(result@, warning@),
{
    let mut result = result;
    let ghost was = result@;
    warn(&mut result.warnings, warning);
    assert(result@ =~= warned(was, warning@));
    result
}

fn count_lines(head: &str, count: usize, middle: &str, policy: &str, tail: &str) -> (r: String)
    ensures
        r@ == counted_warning(head@, count as nat, middle@, policy@, tail@),
{
    let mut r = head.to_owned();
    r.append(decimal_of(count).as_str());
    r.append(middle);
    r.append(policy);
    r.append(tail);
    r
}

fn apply_guard(
    before_text: &str,
    result: PolicyResult,
    zones: &BTreeSet<usize>,
    clauses: &BTreeSet<usize>,
    both: &BTreeSet<usize>,
    policy_name: &str,
) -> (r: PolicyResult)
    requires
        both@ == zones@.union(clauses@),
    ensures
        r@ == guarded(before_text@, result@, zones@, clauses@, policy_name@),
{
    let mut result = suppress_lines_impl(before_text, result, both);
    if zones.len() > 0 {
        result = add_warning(
            result,
            count_lines(
                "guardian controller: dropped ",
                zones.len(),
                " line(s) for '",
                policy_name,
                "' touching disallowed zones",
            ),
        );
    }
    if clauses.len() > 0 {
        result = add_warning(
            result,
            count_lines(
                "guardian controller: blocked ",
                clauses.len(),
                " line(s) for '",
                policy_name,
                "' due to hard semantic constraints",
            ),
        );
    }
    result
}

/// Applies the solver's ruling, and counts the lines that were lost by it.
fn apply_ruling(
    before_text: &str,
    result: PolicyResult,
    dropped: &BTreeSet<usize>,
    hard: &BTreeSet<usize>,
    capability: &PolicyCapabilities,
    policy_name: &str,
) -> (r: (PolicyResult, usize))
    ensures
        r.0@ == arbitrated(
            before_text@,
            result@,
            dropped@,
            hard@,
            *capability,
            policy_name@,
        ),
        r.1 == solver_loss(before_text@, result@, dropped@, *capability, policy_name@),
{
    let ghost start = result@;
    let mut result = result;
    if hard.len() > 0 {
        result = add_warning(
            result,
            count_lines(
                "global conflict solver: blocked ",
                hard.len(),
                " line(s) for '",
                policy_name,
                "' due to hard semantic constraints",
            ),
        );
    }
    let count = dropped.len();
    let keeps = policy_catalog().behavior(policy_name).keeps_nonlocal_batch && has_nonlocal_change(
        before_text,
        result.text.as_str(),
    );
    assert(keeps == keeps_batch(before_text@, start, policy_name@));
    if count == 0 {
        return (result, 0);
    }
    if capability.semantic_rewrite {
        let mut message = "global conflict solver: reverted semantic rewrite '".to_owned();
        message.append(policy_name);
        message.append("' because ");
        message.append(decimal_of(count).as_str());
        message.append(" conflicting line(s) would cause partial propagation");
        let ghost told = result@;
        let reverted = PolicyResult {
            text: before_text.to_owned(),
            violations: result.violations,
            edits: Vec::new(),
            warnings: result.warnings,
            changed: false,
        };
        assert(reverted@ =~= ResultView {
            text: before_text@,
            edits: Seq::empty(),
            changed: false,
            ..told
        });
        (add_warning(reverted, message), count)
    } else if keeps {
        let mut message = "global conflict solver: kept non-local '".to_owned();
        message.append(policy_name);
        message.append("' batch (");
        message.append(decimal_of(count).as_str());
        message.append(" conflicting line(s)) to avoid unsafe partial rollback");
        (add_warning(result, message), 0)
    } else {
        let kept = suppress_lines_impl(before_text, result, dropped);
        (
            add_warning(
                kept,
                count_lines(
                    "global conflict solver: dropped ",
                    count,
                    " conflicting line(s) for '",
                    policy_name,
                    "' before commit",
                ),
            ),
            count,
        )
    }
}

/// Whether the solver's ruling on the candidates leads from one stage to the
/// next.
pub open spec fn coordinates(
    x: ExecutedPolicyStage,
    y: CoordinatedPolicyStage,
    before: Seq<char>,
    policy: Seq<char>,
    candidates: Seq<CandidateView>,
    selected: Seq<CandidateView>,
    scope_stage: RetryScopeStage,
    tuning: SolverTuning,
    controller: convergence::ControllerView,
    controller_after: convergence::ControllerView,
    priority: u16,
) -> bool {
    exists|ruling: Ruling|
        #[trigger] is_ruling(ruling, candidates, x.capability, selected, scope_stage, tuning)
            && is_coordinated(
            y,
            x,
            before,
            policy,
            candidates,
            ruling,
            controller.claims,
            priority,
            scope_stage,
            tuning,
        ) && is_recorded(
            x,
            before,
            policy,
            candidates,
            ruling,
            controller,
            controller_after,
            priority,
        )
}

fn blocks_of(edits: &[Edit], evidence: &[EditEvidence]) -> (r: Vec<
    (usize, Option<BlockContextKind>),
>)
    requires
        evidence@.len() == edits@.len(),
    ensures
        r@ == edit_blocks(model::edit_views(edits@), evidence@),
{
    let mut r: Vec<(usize, Option<BlockContextKind>)> = Vec::new();
    let mut i: usize = 0;
    while i < edits.len()
        invariant
            i <= edits@.len(),
            evidence@.len() == edits@.len(),
            r@.len() == i,
            forall|k: int|
                0 <= k < i ==> #[trigger] r@[k] == (edits@[k].line, evidence@[k].block_at),
        decreases edits@.len() - i,
    {
        r.push((edits[i].line, evidence[i].block_at));
        i += 1;
    }
    assert(r@ =~= edit_blocks(model::edit_views(edits@), evidence@));
    r
}

/// Sets a policy's result against those before it, given the fingerprints of
/// its edits.
pub fn coordinate_with_prints(
    before_text: &str,
    policy_name: &str,
    executed: ExecutedPolicyStage,
    evidence: &[EditEvidence],
    prints: &[EditPrints],
    settings: &ProposalSettings<'_>,
    selected: &[PolicyEditCandidate],
    scope_stage: RetryScopeStage,
    tuning: &SolverTuning,
    controller: &mut ConvergenceController,
    detector: &mut PolicyConflictDetector,
) -> (r: CoordinatedPolicyStage)
    requires
        evidence@.len() == executed.result.edits@.len(),
        prints@.len() == executed.result.edits@.len(),
        settings.valid(),
        has_fair_score(executed),
    ensures
        final(controller).profile_list() == old(controller).profile_list(),
        is_observed(r, policy_name@, old(detector)@, final(detector)@),
        coordinates(
            executed,
            r,
            before_text@,
            policy_name@,
            stage_candidates(executed, policy_name@, evidence@, prints@, *settings),
            conflict_solver::views(selected@),
            scope_stage,
            *tuning,
            old(controller)@,
            final(controller)@,
            convergence::priority_of(old(controller).profile_list(), policy_name@),
        ),
{
    let ghost x = executed;
    let capability = executed.capability;
    let ghost priority = convergence::priority_of(controller.profile_list(), policy_name@);
    let ghost claims = controller@.claims;
    let score: Option<i64> = match &executed.confidence {
        Some(d) => Some(d.score_amount),
        None => None,
    };
    let blocks = blocks_of(executed.result.edits.as_slice(), evidence);
    let confidence = candidate_confidence(
        score,
        settings.file_mods,
        settings.block_mods,
        policy_name,
        settings.scopes_known,
        blocks.as_slice(),
    );
    let proposals = ProposerController::new().propose_with_prints(
        policy_name,
        executed.result.edits.as_slice(),
        evidence,
        prints,
        &ProposalContext {
            available: settings.available,
            comment_lines: settings.comment_lines,
            convergence_signal: &executed.convergence_signal,
            capability,
            confidence,
            confidence_penalty: settings.confidence_penalty,
            trust_deficit_penalty: settings.trust_deficit_penalty,
            richness_radius: settings.richness_radius,
            style: settings.style,
        },
    );
    let ghost candidates = conflict_solver::views(proposals@);
    assert(candidates == stage_candidates(x, policy_name@, evidence@, prints@, *settings));
    let assessment = ProposerController::assess(proposals.as_slice(), &capability);
    let zones = assessment.blocked_zone_lines;
    let clauses = assessment.hard_blocked_lines;
    let mut both = BTreeSet::<usize>::new();
    extend_lines(&mut both, &zones);
    extend_lines(&mut both, &clauses);
    assert(both@ =~= zones@.union(clauses@));
    let allowed = drop_lines(assessment.allowed, &both);
    let result = apply_guard(before_text, executed.result, &zones, &clauses, &both, policy_name);
    let ghost held = result@;
    let solved = GlobalConflictSolver::solve(
        allowed.as_slice(),
        selected,
        scope_stage,
        tuning,
    );
    let ghost ruling = Ruling {
        accepted: conflict_solver::views(solved.accepted@),
        dropped: solved.dropped_lines@,
        hard: solved.hard_blocked_lines@,
    };
    assert(is_ruling(
        ruling,
        candidates,
        capability,
        conflict_solver::views(selected@),
        scope_stage,
        *tuning,
    ));
    let mut hard = clauses.clone();
    extend_lines(&mut hard, &solved.hard_blocked_lines);
    assert(hard@ =~= clauses@.union(ruling.hard));
    let mut signal = executed.convergence_signal;
    signal.solver_dropped_lines = add_capped(solved.dropped_lines.len(), both.len());
    signal.hard_blocked_lines = hard.len();
    let (result, lost) = apply_ruling(
        before_text,
        result,
        &solved.dropped_lines,
        &solved.hard_blocked_lines,
        &capability,
        policy_name,
    );
    let result = controller.reconcile_policy_result(policy_name, before_text, result);
    let result = normalize_edit_coverage(policy_name, before_text, result);
    let result = revert_untracked(before_text, result, "post-arbiter guard", policy_name);
    let kept_lines = edit_lines(result.edits.as_slice());
    let total = solved.accepted.len();
    let accepted_candidates = keep_lines(solved.accepted, &kept_lines);
    proof {
        assert(ruling.accepted.len() == total);
        assert(conflict_solver::views(accepted_candidates@).len() == accepted_candidates@.len());
    }
    let unsettled = total - accepted_candidates.len();
    let dropped_line_count = add_capped(
        add_capped(add_capped(executed.dropped_line_count, both.len()), lost),
        unsettled,
    );
    let candidate_trace = build_policy_candidate_trace(
        proposals.as_slice(),
        scope_stage,
        &zones,
        &hard,
        &solved.dropped_lines,
        &kept_lines,
        tuning,
    );
    let conflict_violations = detector.observe(policy_name, result.edits.as_slice());
    let text_changed = !str_eq(result.text.as_str(), before_text);
    let r = CoordinatedPolicyStage {
        result,
        accepted_candidates,
        candidate_trace,
        conflict_violations,
        context_cluster: executed.context_cluster,
        confidence: executed.confidence,
        dropped_line_count,
        convergence_signal: signal,
        text_changed,
    };
    assert(r.result@.edits.len() == r.result.edits@.len());
    r
}

/// Sets a policy's result against those before it.
pub fn coordinate_policy_stage(
    before_text: &str,
    policy_name: &str,
    executed: ExecutedPolicyStage,
    evidence: &[EditEvidence],
    settings: &ProposalSettings<'_>,
    selected: &[PolicyEditCandidate],
    scope_stage: RetryScopeStage,
    tuning: &SolverTuning,
    controller: &mut ConvergenceController,
    detector: &mut PolicyConflictDetector,
) -> (r: CoordinatedPolicyStage)
    requires
        evidence@.len() == executed.result.edits@.len(),
        settings.valid(),
        has_fair_score(executed),
    ensures
        final(controller).profile_list() == old(controller).profile_list(),
        is_observed(r, policy_name@, old(detector)@, final(detector)@),
        exists|prints: Seq<EditPrints>|
            proposer::prints_agree(executed.result@.edits, evidence@, prints) && coordinates(
                executed,
                r,
                before_text@,
                policy_name@,
                #[trigger] stage_candidates(
                    executed,
                    policy_name@,
                    evidence@,
                    prints,
                    *settings,
                ),
                conflict_solver::views(selected@),
                scope_stage,
                *tuning,
                old(controller)@,
                final(controller)@,
                convergence::priority_of(old(controller).profile_list(), policy_name@),
            ),
{
    let prints = ProposerController::take_prints(executed.result.edits.as_slice(), evidence);
    coordinate_with_prints(
        before_text,
        policy_name,
        executed,
        evidence,
        prints.as_slice(),
        settings,
        selected,
        scope_stage,
        tuning,
        controller,
        detector,
    )
}

/// A policy none of whose edits is left does not change the text.
pub proof fn lemma_no_edit_no_change(
    claims: Map<usize, (Seq<char>, u16)>,
    before: Seq<char>,
    r: ResultView,
    policy: Seq<char>,
    priority: u16,
)
    requires
        settled(claims, before, r, policy, priority).edits.len() == 0,
    ensures
        settled(claims, before, r, policy, priority).text == before,
{
}

/// A rewrite of symbols that loses one line loses all of them.
pub proof fn lemma_rewrite_is_all_or_nothing(
    before: Seq<char>,
    r: ResultView,
    dropped: Set<usize>,
    hard: Set<usize>,
    capability: PolicyCapabilities,
    policy: Seq<char>,
)
    requires
        capability.semantic_rewrite,
        dropped.len() > 0,
    ensures
        arbitrated(before, r, dropped, hard, capability, policy).text == before,
        arbitrated(before, r, dropped, hard, capability, policy).edits.len() == 0,
{
}

/// No edit is left of a line in a zone that is not allowed, or of one that a
/// clause forbids.
pub proof fn lemma_held_lines_are_not_edited(
    before: Seq<char>,
    r: ResultView,
    zones: Set<usize>,
    clauses: Set<usize>,
    policy: Seq<char>,
    k: int,
)
    requires
        zones.finite(),
        clauses.finite(),
        0 <= k < guarded(before, r, zones, clauses, policy).edits.len(),
    ensures
        !zones.contains(guarded(before, r, zones, clauses, policy).edits[k].line),
        !clauses.contains(guarded(before, r, zones, clauses, policy).edits[k].line),
{
    let both = zones.union(clauses);
    let edits = guarded(before, r, zones, clauses, policy).edits;
    assert(edits == suppression::suppressed(before, r, both).edits);
    if both.contains(edits[k].line) {
        assert(both.len() > 0);
        suppression::lemma_suppressed_edits(before, r, both);
        assert(!both.contains(edits[k].line));
    }
}

/// Where nothing is held back or lost, nothing is taken from a result.
pub proof fn lemma_nothing_lost_nothing_taken(
    before: Seq<char>,
    r: ResultView,
    capability: PolicyCapabilities,
    policy: Seq<char>,
)
    ensures
        guarded(before, r, Set::empty(), Set::empty(), policy) == r,
        arbitrated(before, r, Set::empty(), Set::empty(), capability, policy) == r,
{
    assert(Set::<usize>::empty().union(Set::<usize>::empty()) =~= Set::empty());
}

/// The solver's losers are taken back: of a policy that rewrites nothing, and
/// of which no batch is kept together, no edit of a lost line is left, and where
/// the number of lines stays every other edit is.
pub proof fn lemma_lost_lines_are_taken_back(
    before: Seq<char>,
    r: ResultView,
    dropped: Set<usize>,
    hard: Set<usize>,
    capability: PolicyCapabilities,
    policy: Seq<char>,
    e: EditView,
)
    requires
        dropped.finite(),
        dropped.len() > 0,
        !capability.semantic_rewrite,
        policy != "clang_format"@ || line_text::lines_in(before).len() == line_text::lines_in(
            r.text,
        ).len(),
    ensures
        ({
            let left = arbitrated(before, r, dropped, hard, capability, policy).edits;
            &&& left.contains(e) ==> !dropped.contains(e.line)
            &&& line_text::lines_in(before).len() == line_text::lines_in(r.text).len() ==> (
            left.contains(e) <==> r.edits.contains(e) && !dropped.contains(e.line))
        }),
{
    catalog::lemma_special_policies(policy);
    suppression::lemma_kept_edits_exactly(r.edits, dropped, e);
    let left = arbitrated(before, r, dropped, hard, capability, policy).edits;
    if left.contains(e) {
        let k = choose|k: int| 0 <= k < left.len() && left[k] == e;
        lemma_arbitrated_edits(before, r, dropped, hard, capability, policy);
        assert(!dropped.contains(left[k].line));
    }
}

proof fn lemma_arbitrated_edits(
    before: Seq<char>,
    r: ResultView,
    dropped: Set<usize>,
    hard: Set<usize>,
    capability: PolicyCapabilities,
    policy: Seq<char>,
)
    requires
        dropped.len() > 0,
        !capability.semantic_rewrite,
        !keeps_batch(before, r, policy),
    ensures
        !suppression::names_disabled(
            arbitrated(before, r, dropped, hard, capability, policy).edits,
            dropped,
        ),
{
    let told = if hard.len() > 0 {
        warned(
            r,
            counted_warning(
                "global conflict solver: blocked "@,
                hard.len(),
                " line(s) for '"@,
                policy,
                "' due to hard semantic constraints"@,
            ),
        )
    } else {
        r
    };
    suppression::lemma_suppressed_edits(before, told, dropped);
}

/// Only candidates of lines that the policy changes in the end are handed on as
/// accepted.
pub proof fn lemma_accepted_lines_are_changed(
    c: Seq<CandidateView>,
    lines: Set<usize>,
    x: CandidateView,
)
    ensures
        on_lines(c, lines).contains(x) <==> c.contains(x) && lines.contains(x.line),
        off_lines(c, lines).contains(x) <==> c.contains(x) && !lines.contains(x.line),
    decreases c.len(),
{
    if c.len() > 0 {
        let head = c.drop_last();
        lemma_accepted_lines_are_changed(head, lines, x);
        let a = on_lines(head, lines);
        let b = off_lines(head, lines);
        let on = on_lines(c, lines);
        let off = off_lines(c, lines);
        assert(c[c.len() - 1] == c.last());
        if head.contains(x) {
            let k = choose|k: int| 0 <= k < head.len() && head[k] == x;
            assert(c[k] == x);
        }
        if c.contains(x) {
            let k = choose|k: int| 0 <= k < c.len() && c[k] == x;
            if k < head.len() {
                assert(head[k] == x);
            }
        }
        if a.contains(x) {
            let k = choose|k: int| 0 <= k < a.len() && a[k] == x;
            assert(on[k] == x);
        }
        if b.contains(x) {
            let k = choose|k: int| 0 <= k < b.len() && b[k] == x;
            assert(off[k] == x);
        }
        if on.contains(x) {
            let k = choose|k: int| 0 <= k < on.len() && on[k] == x;
            if k < a.len() {
                assert(a[k] == x);
            }
        }
        if off.contains(x) {
            let k = choose|k: int| 0 <= k < off.len() && off[k] == x;
            if k < b.len() {
                assert(b[k] == x);
            }
        }
        if x == c.last() {
            if lines.contains(x.line) {
                assert(on[a.len() as int] == x);
            } else {
                assert(off[b.len() as int] == x);
            }
        }
    }
}

/// What comes of a coordination. Each candidate that is handed on as accepted
/// was proposed, is in a zone that the policy may edit, breaks no clause but
/// perhaps the one on macros, and is on a line that the policy changes; any two
/// of them, and any of them and one that was selected before, keep apart. A text
/// that changed has edits, and is said to have changed.
pub proof fn lemma_what_is_committed(
    x: ExecutedPolicyStage,
    y: CoordinatedPolicyStage,
    before: Seq<char>,
    policy: Seq<char>,
    candidates: Seq<CandidateView>,
    selected: Seq<CandidateView>,
    scope_stage: RetryScopeStage,
    tuning: SolverTuning,
    controller: convergence::ControllerView,
    controller_after: convergence::ControllerView,
    priority: u16,
    c: CandidateView,
    s: CandidateView,
)
    requires
        coordinates(
            x,
            y,
            before,
            policy,
            candidates,
            selected,
            scope_stage,
            tuning,
            controller,
            controller_after,
            priority,
        ),
    ensures
        y.text_changed <==> y.result@.text != before,
        y.text_changed ==> y.result@.edits.len() > 0,
        y.confidence == x.confidence,
        y.context_cluster == x.context_cluster,
        conflict_solver::views(y.accepted_candidates@).contains(c) ==> {
            let mask = c.hard_constraints_touched;
            &&& candidates.contains(c)
            &&& x.capability.allowed_zones.has(c.zone)
            &&& mask & 1 == 0 && mask & 2 == 0 && mask & 4 == 0 && mask & 8 == 0
            &&& mask & 16 == 0 && mask & 64 == 0 && mask & 128 == 0 && mask & 256 == 0
            &&& exists|k: int|
                0 <= k < y.result@.edits.len() && (#[trigger] y.result@.edits[k]).line == c.line
                    && y.result@.edits[k].before != y.result@.edits[k].after
        },
        conflict_solver::views(y.accepted_candidates@).contains(c) && selected.contains(s)
            && c.policy != s.policy && !catalog::named_behavior(c.policy).bypasses_line_conflict
            && !catalog::named_behavior(s.policy).bypasses_line_conflict ==> c.line != s.line,
{
    let ruling = choose|ruling: Ruling|
        #[trigger] is_ruling(ruling, candidates, x.capability, selected, scope_stage, tuning)
            && is_coordinated(
            y,
            x,
            before,
            policy,
            candidates,
            ruling,
            controller.claims,
            priority,
            scope_stage,
            tuning,
        ) && is_recorded(
            x,
            before,
            policy,
            candidates,
            ruling,
            controller,
            controller_after,
            priority,
        );
    let zones = proposer::zone_lines(candidates, x.capability);
    let clauses = proposer::clause_lines(candidates, x.capability);
    let held = guarded(before, x.result@, zones, clauses, policy);
    let told = arbitrated(before, held, ruling.dropped, ruling.hard, x.capability, policy);
    if y.result@.edits.len() == 0 {
        lemma_no_edit_no_change(controller.claims, before, told, policy, priority);
    }
    let lines = edit_utils::changed_lines(y.result@.edits);
    let allowed = proposer::allowed_of(candidates, x.capability);
    let open = off_lines(allowed, zones.union(clauses));
    if conflict_solver::views(y.accepted_candidates@).contains(c) {
        lemma_accepted_lines_are_changed(ruling.accepted, lines, c);
        conflict_solver::lemma_accepted_are_the_best_of_their_lines(
            open,
            selected,
            scope_stage,
            tuning,
            ruling.accepted,
            ruling.dropped,
            ruling.hard,
        );
        let i = choose|i: int| 0 <= i < ruling.accepted.len() && ruling.accepted[i] == c;
        assert(open.contains(ruling.accepted[i]));
        lemma_accepted_lines_are_changed(allowed, zones.union(clauses), c);
        proposer::lemma_who_may_go_on(candidates, x.capability, c, c.line);
        let k = choose|k: int|
            0 <= k < y.result@.edits.len() && (#[trigger] y.result@.edits[k]).changes()
                && y.result@.edits[k].line == c.line;
        assert(y.result@.edits[k].line == c.line);
        if selected.contains(s) && c.policy != s.policy && !catalog::named_behavior(
            c.policy,
        ).bypasses_line_conflict && !catalog::named_behavior(s.policy).bypasses_line_conflict {
            conflict_solver::lemma_accepted_keep_apart(
                open,
                selected,
                scope_stage,
                tuning,
                ruling.accepted,
                ruling.dropped,
                ruling.hard,
                c,
                s,
            );
        }
    }
}

/// A policy on which nothing stands in the way keeps its result: where no line
/// is held back or lost, and no other policy holds one of its lines, its text,
/// its edits and its violations are committed, provided that the edits account
/// for the text.
pub proof fn lemma_unopposed_results_are_committed(
    claims: Map<usize, (Seq<char>, u16)>,
    before: Seq<char>,
    r: ResultView,
    capability: PolicyCapabilities,
    policy: Seq<char>,
    priority: u16,
)
    requires
        r.text != before,
        r.edits.len() > 0,
        edit_utils::strict_text(before, r.edits) == Some(r.text),
        forall|line: usize| #[trigger]
            edit_utils::changed_lines(r.edits).contains(line) && claims.contains_key(line)
                ==> claims[line].0 == policy || claims[line].1 < priority,
    ensures
        ({
            let held = guarded(before, r, Set::empty(), Set::empty(), policy);
            let told = arbitrated(before, held, Set::empty(), Set::empty(), capability, policy);
            settled(claims, before, told, policy, priority) == r
        }),
{
    lemma_nothing_lost_nothing_taken(before, r, capability, policy);
    assert(convergence::lost_lines(claims, r.edits, policy, priority) =~= Set::empty());
    assert(convergence::reconciled(claims, before, r, policy, priority) == r);
}

} // verus!
