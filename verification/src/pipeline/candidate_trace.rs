//! What became of each candidate.
use std::collections::BTreeSet;
use vstd::prelude::*;

use crate::conflict_solver;
use crate::conflict_solver::{GlobalConflictSolver, SolverTuning};
use crate::edit_candidate::{CandidateRiskTier, CandidateView, PolicyEditCandidate};
use crate::run_options::RetryScopeStage;
use crate::semantic_contract::clause;
use crate::semantic_contract::{clause_list, SemanticInvariantClause};
use crate::text;
use crate::text::{comes_before, str_eq};
use crate::zone::PolicyZone;

verus! {

broadcast use {
    vstd::std_specs::btree::group_btree_axioms,
    vstd::laws_cmp::group_laws_cmp,
};

/// What became of a candidate.
#[derive(Clone, Copy, Debug, PartialEq, Eq, Structural)]
pub enum PolicyCandidateOutcome {
    Selected,
    BlockedZone,
    BlockedHardConstraint,
    DroppedConflict,
    DroppedConvergence,
}

impl PolicyCandidateOutcome {
    /// The label of an outcome.
    pub open spec fn label(self) -> Seq<char> {
        match self {
            PolicyCandidateOutcome::Selected => "selected"@,
            PolicyCandidateOutcome::BlockedZone => "blocked_zone"@,
            PolicyCandidateOutcome::BlockedHardConstraint => "blocked_hard_constraint"@,
            PolicyCandidateOutcome::DroppedConflict => "dropped_conflict"@,
            PolicyCandidateOutcome::DroppedConvergence => "dropped_convergence"@,
        }
    }

    pub fn as_str(&self) -> (r: &'static str)
        ensures
            r@ == self.label(),
    {
        match self {
            PolicyCandidateOutcome::Selected => "selected",
            PolicyCandidateOutcome::BlockedZone => "blocked_zone",
            PolicyCandidateOutcome::BlockedHardConstraint => "blocked_hard_constraint",
            PolicyCandidateOutcome::DroppedConflict => "dropped_conflict",
            PolicyCandidateOutcome::DroppedConvergence => "dropped_convergence",
        }
    }
}

/// A candidate with what became of it.
#[derive(Debug)]
pub struct PolicyCandidateTrace {
    pub line: usize,
    pub confidence: i64,
    pub style_gain: i64,
    pub utility: i128,
    pub risk_tier: CandidateRiskTier,
    pub impact_radius: usize,
    pub symbol_footprint_count: usize,
    pub range_footprint_count: usize,
    pub hard_constraints_touched: Vec<SemanticInvariantClause>,
    pub zone: PolicyZone,
    pub outcome: PolicyCandidateOutcome,
}

/// The value of a trace.
#[verifier::ext_equal]
pub ghost struct TraceView {
    pub line: usize,
    pub confidence: i64,
    pub style_gain: i64,
    pub utility: int,
    pub risk_tier: CandidateRiskTier,
    pub impact_radius: usize,
    pub symbol_footprint_count: nat,
    pub range_footprint_count: nat,
    pub hard_constraints_touched: Seq<SemanticInvariantClause>,
    pub zone: PolicyZone,
    pub outcome: PolicyCandidateOutcome,
}

impl View for PolicyCandidateTrace {
    type V = TraceView;

    open spec fn view(&self) -> TraceView {
        TraceView {
            line: self.line,
            confidence: self.confidence,
            style_gain: self.style_gain,
            utility: self.utility as int,
            risk_tier: self.risk_tier,
            impact_radius: self.impact_radius,
            symbol_footprint_count: self.symbol_footprint_count as nat,
            range_footprint_count: self.range_footprint_count as nat,
            hard_constraints_touched: self.hard_constraints_touched@,
            zone: self.zone,
            outcome: self.outcome,
        }
    }
}

pub open spec fn trace_views(t: Seq<PolicyCandidateTrace>) -> Seq<TraceView> {
    t.map_values(|x: PolicyCandidateTrace| x@)
}

/// The clauses among the first `n` that a mask names.
pub open spec fn clauses_in(mask: u16, n: int) -> Seq<SemanticInvariantClause>
    decreases n,
{
    if n <= 0 {
        Seq::empty()
    } else {
        let rest = clauses_in(mask, n - 1);
        let one = clause::all_clauses()[n - 1];
        if mask & one.mask() != 0 {
            rest.push(one)
        } else {
            rest
        }
    }
}

/// The lines that decide what became of candidates.
pub ghost struct Fates {
    pub kept: Set<usize>,
    pub zones: Set<usize>,
    pub hard: Set<usize>,
    pub dropped: Set<usize>,
}

/// What became of the candidates of a line.
pub open spec fn outcome_of(line: usize, fates: Fates) -> PolicyCandidateOutcome {
    if fates.kept.contains(line) {
        PolicyCandidateOutcome::Selected
    } else if fates.zones.contains(line) {
        PolicyCandidateOutcome::BlockedZone
    } else if fates.hard.contains(line) {
        PolicyCandidateOutcome::BlockedHardConstraint
    } else if fates.dropped.contains(line) {
        PolicyCandidateOutcome::DroppedConflict
    } else {
        PolicyCandidateOutcome::DroppedConvergence
    }
}

/// The trace of a candidate.
pub open spec fn trace_of(
    c: CandidateView,
    stage: RetryScopeStage,
    tuning: SolverTuning,
    fates: Fates,
) -> TraceView {
    TraceView {
        line: c.line,
        confidence: c.confidence,
        style_gain: c.style_gain,
        utility: conflict_solver::utility(c, stage, tuning),
        risk_tier: c.risk_tier,
        impact_radius: c.impact_radius,
        symbol_footprint_count: c.symbol_footprint.len(),
        range_footprint_count: c.range_footprint.len(),
        hard_constraints_touched: clauses_in(
            c.hard_constraints_touched,
            clause::all_clauses().len() as int,
        ),
        zone: c.zone,
        outcome: outcome_of(c.line, fates),
    }
}

/// The order of traces: by line, then by the label of the outcome, then by the
/// label of the tier.
pub open spec fn trace_after(a: TraceView, b: TraceView) -> bool {
    a.line > b.line || (a.line == b.line && (text::name_less(b.outcome.label(), a.outcome.label())
        || (a.outcome.label() == b.outcome.label() && text::name_less(
        b.risk_tier.label(),
        a.risk_tier.label(),
    ))))
}

/// An ordered list of traces with one more; it comes behind its equals.
pub open spec fn insert_trace(list: Seq<TraceView>, t: TraceView) -> Seq<TraceView>
    decreases list.len(),
{
    if list.len() == 0 || !trace_after(list.last(), t) {
        list.push(t)
    } else {
        insert_trace(list.drop_last(), t).push(list.last())
    }
}

/// The traces of a list of candidates, in order.
pub open spec fn traces(
    c: Seq<CandidateView>,
    stage: RetryScopeStage,
    tuning: SolverTuning,
    fates: Fates,
) -> Seq<TraceView>
    decreases c.len(),
{
    if c.len() == 0 {
        Seq::empty()
    } else {
        insert_trace(
            traces(c.drop_last(), stage, tuning, fates),
            trace_of(c.last(), stage, tuning, fates),
        )
    }
}

fn clauses_of_mask(mask: u16) -> (r: Vec<SemanticInvariantClause>)
    ensures
        r@ == clauses_in(mask, clause::all_clauses().len() as int),
{
    let all = clause_list();
    let mut r: Vec<SemanticInvariantClause> = Vec::new();
    let mut i: usize = 0;
    while i < all.len()
        invariant
            i <= all@.len(),
            all@ == clause::all_clauses(),
            r@ == clauses_in(mask, i as int),
        decreases all@.len() - i,
    {
        if mask & all[i].bit() != 0 {
            r.push(all[i]);
        }
        i += 1;
    }
    r
}

fn comes_after(a: &PolicyCandidateTrace, b: &PolicyCandidateTrace) -> (r: bool)
    ensures
        r == trace_after(a@, b@),
{
    if a.line != b.line {
        return a.line > b.line;
    }
    let left = a.outcome.as_str();
    let right = b.outcome.as_str();
    if comes_before(right, left) {
        return true;
    }
    str_eq(left, right) && comes_before(b.risk_tier.as_str(), a.risk_tier.as_str())
}

fn add_trace(list: &mut Vec<PolicyCandidateTrace>, t: PolicyCandidateTrace)
    ensures
        trace_views(final(list)@) == insert_trace(trace_views(old(list)@), t@),
{
    let ghost all = trace_views(list@);
    let mut pos: usize = list.len();
    let ghost n = all.len() as int;
    assert(all.take(n) =~= all);
    assert(insert_trace(all, t@) + all.skip(n) =~= insert_trace(all, t@));
    while pos > 0
        invariant
            list@ == old(list)@,
            all == trace_views(list@),
            pos <= all.len(),
            insert_trace(all, t@) == insert_trace(all.take(pos as int), t@) + all.skip(pos as int),
        decreases pos,
    {
        let ghost head = all.take(pos as int);
        assert(head.last() == list@[pos - 1]@);
        if !comes_after(&list[pos - 1], &t) {
            let ghost view = t@;
            list.insert(pos, t);
            assert(trace_views(list@) =~= head.push(view) + all.skip(pos as int));
            return ;
        }
        proof {
            assert(head.drop_last() =~= all.take(pos - 1));
            assert(all.skip(pos - 1) =~= seq![head.last()] + all.skip(pos as int));
            assert(insert_trace(head, t@) + all.skip(pos as int) =~= insert_trace(
                all.take(pos - 1),
                t@,
            ) + all.skip(pos - 1));
        }
        pos -= 1;
    }
    let ghost view = t@;
    list.insert(0, t);
    proof {
        assert(all.take(0) =~= Seq::empty());
        assert(all.skip(0) =~= all);
        assert(trace_views(list@) =~= insert_trace(Seq::empty(), view) + all);
    }
}

/// Tells what became of each candidate.
pub fn build_policy_candidate_trace(
    all_candidates: &[PolicyEditCandidate],
    scope_stage: RetryScopeStage,
    disallowed_zone_lines: &BTreeSet<usize>,
    hard_blocked_lines: &BTreeSet<usize>,
    dropped_lines: &BTreeSet<usize>,
    kept_lines: &BTreeSet<usize>,
    tuning: &SolverTuning,
) -> (r: Vec<PolicyCandidateTrace>)
    ensures
        trace_views(r@) == traces(
            conflict_solver::views(all_candidates@),
            scope_stage,
            *tuning,
            (Fates {
                kept: kept_lines@,
                zones: disallowed_zone_lines@,
                hard: hard_blocked_lines@,
                dropped: dropped_lines@,
            }),
        ),
{
    let ghost all = conflict_solver::views(all_candidates@);
    let ghost fates = Fates {
        kept: kept_lines@,
        zones: disallowed_zone_lines@,
        hard: hard_blocked_lines@,
        dropped: dropped_lines@,
    };
    let mut r: Vec<PolicyCandidateTrace> = Vec::new();
    let mut i: usize = 0;
    assert(trace_views(r@) =~= Seq::empty());
    while i < all_candidates.len()
        invariant
            i <= all_candidates@.len(),
            all == conflict_solver::views(all_candidates@),
            fates == (Fates {
                kept: kept_lines@,
                zones: disallowed_zone_lines@,
                hard: hard_blocked_lines@,
                dropped: dropped_lines@,
            }),
            trace_views(r@) == traces(all.take(i as int), scope_stage, *tuning, fates),
        decreases all_candidates@.len() - i,
    {
        let c = &all_candidates[i];
        assert(all.take(i + 1).drop_last() =~= all.take(i as int));
        assert(all.take(i + 1).last() == c@);
        let outcome = if kept_lines.contains(&c.line) {
            PolicyCandidateOutcome::Selected
        } else if disallowed_zone_lines.contains(&c.line) {
            PolicyCandidateOutcome::BlockedZone
        } else if hard_blocked_lines.contains(&c.line) {
            PolicyCandidateOutcome::BlockedHardConstraint
        } else if dropped_lines.contains(&c.line) {
            PolicyCandidateOutcome::DroppedConflict
        } else {
            PolicyCandidateOutcome::DroppedConvergence
        };
        let t = PolicyCandidateTrace {
            line: c.line,
            confidence: c.confidence,
            style_gain: c.style_gain,
            utility: GlobalConflictSolver::utility_score(c, scope_stage, tuning),
            risk_tier: c.risk_tier,
            impact_radius: c.impact_radius,
            symbol_footprint_count: c.symbol_footprint.len(),
            range_footprint_count: c.range_footprint.len(),
            hard_constraints_touched: clauses_of_mask(c.hard_constraints_touched),
            zone: c.zone,
            outcome,
        };
        assert(t@ =~= trace_of(c@, scope_stage, *tuning, fates));
        add_trace(&mut r, t);
        i += 1;
    }
    assert(all.take(all.len() as int) =~= all);
    r
}

proof fn lemma_insert_len(list: Seq<TraceView>, t: TraceView)
    ensures
        insert_trace(list, t).len() == list.len() + 1,
    decreases list.len(),
{
    if list.len() > 0 && trace_after(list.last(), t) {
        lemma_insert_len(list.drop_last(), t);
    }
}

/// Every candidate has its trace.
pub proof fn lemma_one_trace_each(
    c: Seq<CandidateView>,
    stage: RetryScopeStage,
    tuning: SolverTuning,
    fates: Fates,
)
    ensures
        traces(c, stage, tuning, fates).len() == c.len(),
    decreases c.len(),
{
    if c.len() > 0 {
        lemma_one_trace_each(c.drop_last(), stage, tuning, fates);
        lemma_insert_len(
            traces(c.drop_last(), stage, tuning, fates),
            trace_of(c.last(), stage, tuning, fates),
        );
    }
}

proof fn lemma_insert_trace(list: Seq<TraceView>, t: TraceView, x: TraceView)
    ensures
        insert_trace(list, t).contains(x) <==> list.contains(x) || x == t,
    decreases list.len(),
{
    let all = insert_trace(list, t);
    if list.len() == 0 || !trace_after(list.last(), t) {
        assert(all[list.len() as int] == t);
        if list.contains(x) {
            let k = choose|k: int| 0 <= k < list.len() && list[k] == x;
            assert(all[k] == x);
        }
        if all.contains(x) && x != t {
            let k = choose|k: int| 0 <= k < all.len() && all[k] == x;
            assert(list[k] == x);
        }
    } else {
        let head = list.drop_last();
        let rest = insert_trace(head, t);
        lemma_insert_trace(head, t, x);
        assert(all == rest.push(list.last()));
        assert(all[rest.len() as int] == list.last());
        assert(list[list.len() - 1] == list.last());
        if head.contains(x) {
            let k = choose|k: int| 0 <= k < head.len() && head[k] == x;
            assert(list[k] == x);
        }
        if list.contains(x) {
            let k = choose|k: int| 0 <= k < list.len() && list[k] == x;
            if k < head.len() {
                assert(head[k] == x);
            }
        }
        if rest.contains(x) {
            let k = choose|k: int| 0 <= k < rest.len() && rest[k] == x;
            assert(all[k] == x);
        }
        if all.contains(x) {
            let k = choose|k: int| 0 <= k < all.len() && all[k] == x;
            if k < rest.len() {
                assert(rest[k] == x);
            }
        }
    }
}

proof fn lemma_traces_hold(
    c: Seq<CandidateView>,
    stage: RetryScopeStage,
    tuning: SolverTuning,
    fates: Fates,
    i: int,
)
    requires
        0 <= i < c.len(),
    ensures
        traces(c, stage, tuning, fates).contains(trace_of(c[i], stage, tuning, fates)),
    decreases c.len(),
{
    let x = trace_of(c[i], stage, tuning, fates);
    let last = trace_of(c.last(), stage, tuning, fates);
    lemma_insert_trace(traces(c.drop_last(), stage, tuning, fates), last, x);
    if i < c.len() - 1 {
        assert(c.drop_last()[i] == c[i]);
        lemma_traces_hold(c.drop_last(), stage, tuning, fates, i);
    }
}

/// Every candidate is told of, with its line, its worth and what became of it:
/// it was selected if its line was kept; else it was blocked for its zone, or
/// by a clause; else it lost to another candidate, or to another policy.
pub proof fn lemma_every_candidate_is_told_of(
    c: Seq<CandidateView>,
    stage: RetryScopeStage,
    tuning: SolverTuning,
    fates: Fates,
    i: int,
)
    requires
        0 <= i < c.len(),
    ensures
        exists|t: TraceView| #[trigger]
            traces(c, stage, tuning, fates).contains(t) && t.line == c[i].line && t.confidence
                == c[i].confidence && t.style_gain == c[i].style_gain && t.risk_tier
                == c[i].risk_tier && t.zone == c[i].zone && t.utility == conflict_solver::utility(
                c[i],
                stage,
                tuning,
            ) && (t.outcome == PolicyCandidateOutcome::Selected <==> fates.kept.contains(c[i].line))
                && (t.outcome == PolicyCandidateOutcome::BlockedZone <==> fates.zones.contains(
                c[i].line,
            ) && !fates.kept.contains(c[i].line)) && (t.outcome
                == PolicyCandidateOutcome::BlockedHardConstraint <==> fates.hard.contains(c[i].line)
                && !fates.zones.contains(c[i].line) && !fates.kept.contains(c[i].line)) && (
            t.outcome == PolicyCandidateOutcome::DroppedConflict <==> fates.dropped.contains(
                c[i].line,
            ) && !fates.hard.contains(c[i].line) && !fates.zones.contains(c[i].line)
                && !fates.kept.contains(c[i].line)),
{
    lemma_traces_hold(c, stage, tuning, fates, i);
    let t = trace_of(c[i], stage, tuning, fates);
    assert(traces(c, stage, tuning, fates).contains(t));
}

/// Traces come in the order of their lines.
pub proof fn lemma_traces_are_in_order(
    c: Seq<CandidateView>,
    stage: RetryScopeStage,
    tuning: SolverTuning,
    fates: Fates,
)
    ensures
        forall|i: int, j: int|
            0 <= i < j < traces(c, stage, tuning, fates).len() ==> (#[trigger] traces(
                c,
                stage,
                tuning,
                fates,
            )[i]).line <= (#[trigger] traces(c, stage, tuning, fates)[j]).line,
    decreases c.len(),
{
    if c.len() > 0 {
        lemma_traces_are_in_order(c.drop_last(), stage, tuning, fates);
        lemma_insert_in_order(
            traces(c.drop_last(), stage, tuning, fates),
            trace_of(c.last(), stage, tuning, fates),
        );
    }
}

proof fn lemma_insert_in_order(list: Seq<TraceView>, t: TraceView)
    requires
        forall|i: int, j: int|
            0 <= i < j < list.len() ==> (#[trigger] list[i]).line <= (#[trigger] list[j]).line,
    ensures
        forall|i: int, j: int|
            0 <= i < j < insert_trace(list, t).len() ==> (#[trigger] insert_trace(list, t)[i]).line
                <= (#[trigger] insert_trace(list, t)[j]).line,
    decreases list.len(),
{
    let all = insert_trace(list, t);
    if list.len() == 0 || !trace_after(list.last(), t) {
        assert forall|i: int, j: int| 0 <= i < j < all.len() implies (#[trigger] all[i]).line <= (
        #[trigger] all[j]).line by {
            if j == list.len() {
                if i < list.len() - 1 {
                    assert(list[i].line <= list[list.len() - 1].line);
                }
            } else {
                assert(list[i].line <= list[j].line);
            }
        }
    } else {
        let head = list.drop_last();
        let rest = insert_trace(head, t);
        assert forall|i: int, j: int| 0 <= i < j < head.len() implies (#[trigger] head[i]).line <= (
        #[trigger] head[j]).line by {
            assert(list[i].line <= list[j].line);
        }
        lemma_insert_in_order(head, t);
        assert forall|i: int, j: int| 0 <= i < j < all.len() implies (#[trigger] all[i]).line <= (
        #[trigger] all[j]).line by {
            if j < rest.len() {
                assert(rest[i].line <= rest[j].line);
            } else {
                lemma_insert_trace(head, t, rest[i]);
                assert(rest.contains(rest[i]));
                if rest[i] != t {
                    let k = choose|k: int| 0 <= k < head.len() && head[k] == rest[i];
                    assert(list[k].line <= list[list.len() - 1].line);
                }
            }
        }
    }
}

} // verus!
