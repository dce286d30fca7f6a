//! Which of several conflicting candidate edits are accepted.
//!
//! Amounts are fixed-point numbers in billionths: two utilities are the same
//! exactly when their amounts are.
use std::collections::BTreeSet;
use vstd::prelude::*;

use crate::catalog;
use crate::catalog::{policy_catalog, PolicyCatalog};
use crate::conflict_graph;
use crate::conflict_graph::connected_components;
use crate::conflict_search;
use crate::conflict_search::{best_choice, greedy_choice, WEIGHT_LIMIT};
use crate::edit_candidate::{CandidateRiskTier, CandidateView, PolicyEditCandidate};
use crate::lines;
use crate::run_options::RetryScopeStage;
use crate::semantic_contract::clause;
use crate::semantic_contract::clause::clause_list;
use crate::semantic_contract::SemanticInvariantClause;
use crate::text::str_eq;
use crate::zone::PolicyZone;

verus! {

broadcast use {
    vstd::std_specs::btree::group_btree_axioms,
    vstd::laws_cmp::group_laws_cmp,
};

/// Confidences closer than this count as the same when lines are consolidated.
pub const CONFIDENCE_TOLERANCE: i64 = 1_000_000;

/// No footprint costs more than this.
pub const FOOTPRINT_LIMIT: u64 = 300_000_000;

/// What the estimators say about how edits are to be weighed.
#[derive(Clone, Copy, Debug, PartialEq, Eq, Structural)]
pub struct SolverTuning {
    pub stabilizer_bonus_low: u32,
    pub stabilizer_bonus_medium: u32,
    pub scope_bonus_low: u32,
    pub scope_bonus_other: u32,
    pub risk_penalty_medium: u32,
    pub risk_penalty_high: u32,
    pub range_weight: u32,
    pub symbol_weight: u32,
    pub component_threshold: u8,
    pub fuzzy_min_semantic: usize,
    pub fuzzy_min_other: usize,
}

/// What a candidate's footprint costs.
pub open spec fn footprint_penalty(c: CandidateView, t: SolverTuning) -> int {
    let cost = c.range_footprint.len() * t.range_weight + c.symbol_footprint.len()
        * t.symbol_weight;
    if cost <= FOOTPRINT_LIMIT {
        cost as int
    } else {
        FOOTPRINT_LIMIT as int
    }
}

/// The bonus for a narrow scope: none for the full file, half for the region
/// of the culprits, all of it for a node or a line.
pub open spec fn scope_share(bonus: u32, stage: RetryScopeStage) -> int {
    match stage {
        RetryScopeStage::Full => 0,
        RetryScopeStage::CulpritRegion => bonus as int / 2,
        RetryScopeStage::NodeLocal | RetryScopeStage::LineLocal => bonus as int,
    }
}

/// How much an edit is worth.
pub open spec fn utility(c: CandidateView, stage: RetryScopeStage, t: SolverTuning) -> int {
    let stabilizer = match c.risk_tier {
        CandidateRiskTier::Low => t.stabilizer_bonus_low as int,
        CandidateRiskTier::Medium => t.stabilizer_bonus_medium as int,
        CandidateRiskTier::High => 0,
    };
    let scope = scope_share(
        if c.risk_tier == CandidateRiskTier::Low {
            t.scope_bonus_low
        } else {
            t.scope_bonus_other
        },
        stage,
    );
    let risk = match c.risk_tier {
        CandidateRiskTier::Low => 0,
        CandidateRiskTier::Medium => t.risk_penalty_medium as int,
        CandidateRiskTier::High => t.risk_penalty_high as int,
    };
    c.style_gain + c.confidence + stabilizer + scope - risk - footprint_penalty(c, t)
}

/// Whether, of two candidates for one line, the later one takes the place of
/// the earlier.
pub open spec fn displaces(
    new: CandidateView,
    old: CandidateView,
    stage: RetryScopeStage,
    t: SolverTuning,
) -> bool {
    let gain = utility(new, stage, t) - utility(old, stage, t);
    let confidence = new.confidence - old.confidence;
    ||| gain > 0
    ||| gain == 0 && confidence > CONFIDENCE_TOLERANCE
    ||| gain == 0 && -CONFIDENCE_TOLERANCE <= confidence <= CONFIDENCE_TOLERANCE
        && new.risk_tier.precedence() > old.risk_tier.precedence()
}

/// The index, among the first `n` candidates, of the one that stays for a
/// line.
pub open spec fn survivor(
    c: Seq<CandidateView>,
    line: usize,
    n: int,
    stage: RetryScopeStage,
    t: SolverTuning,
) -> Option<int>
    decreases n,
{
    if n <= 0 {
        None
    } else {
        let before = survivor(c, line, n - 1, stage, t);
        if c[n - 1].line != line {
            before
        } else {
            match before {
                None => Some(n - 1),
                Some(old) => if displaces(c[n - 1], c[old], stage, t) {
                    Some(n - 1)
                } else {
                    before
                },
            }
        }
    }
}

/// The lines of the candidates.
pub open spec fn line_set(c: Seq<CandidateView>) -> Set<usize> {
    c.map_values(|x: CandidateView| x.line).to_set()
}

/// The one candidate that stays for each line, in the order of the lines.
pub open spec fn consolidated(
    c: Seq<CandidateView>,
    stage: RetryScopeStage,
    t: SolverTuning,
) -> Seq<CandidateView> {
    lines::listing(line_set(c)).map_values(
        |line: usize| c[survivor(c, line, c.len() as int, stage, t)->0],
    )
}

/// Whether two lists of line ranges share a line.
pub open spec fn overlapping(left: Seq<(usize, usize)>, right: Seq<(usize, usize)>) -> bool {
    exists|i: int, j: int|
        0 <= i < left.len() && 0 <= j < right.len() && (#[trigger] left[i]).0 <= (
        #[trigger] right[j]).1 && right[j].0 <= left[i].1
}

/// Whether two lists share a symbol.
pub open spec fn sharing(left: Seq<u64>, right: Seq<u64>) -> bool {
    exists|symbol: u64| left.contains(symbol) && right.contains(symbol)
}

pub open spec fn gap(left: usize, right: usize) -> int {
    if left <= right {
        right - left
    } else {
        left - right
    }
}

pub open spec fn larger(left: usize, right: usize) -> usize {
    if left <= right {
        right
    } else {
        left
    }
}

/// Whether a candidate may change what a symbol means.
pub open spec fn sensitive(c: CandidateView) -> bool {
    catalog::named_capabilities(c.policy).semantic_rewrite || c.risk_tier
        == CandidateRiskTier::High
}

/// Whether two candidates cannot both be accepted.
pub open spec fn conflict(left: CandidateView, right: CandidateView, t: SolverTuning) -> bool {
    let radius = larger(left.impact_radius, right.impact_radius);
    if left.policy == right.policy {
        left.line == right.line
    } else if catalog::named_behavior(left.policy).bypasses_line_conflict
        || catalog::named_behavior(right.policy).bypasses_line_conflict {
        false
    } else {
        let fuzzy_min = if sensitive(left) || sensitive(right) {
            t.fuzzy_min_semantic
        } else {
            t.fuzzy_min_other
        };
        ||| left.line == right.line
        ||| overlapping(left.range_footprint, right.range_footprint)
        ||| sharing(left.symbol_footprint, right.symbol_footprint) && gap(left.line, right.line)
            <= larger(radius, fuzzy_min)
        ||| (left.zone == PolicyZone::Preprocessor || right.zone == PolicyZone::Preprocessor)
            && left.after_fingerprint != right.after_fingerprint && gap(left.line, right.line)
            <= radius
    }
}

/// A conflict is mutual.
pub proof fn lemma_conflict_symmetric(left: CandidateView, right: CandidateView, t: SolverTuning)
    ensures
        conflict(left, right, t) == conflict(right, left, t),
{
    let a = left.range_footprint;
    let b = right.range_footprint;
    if overlapping(a, b) {
        let (i, j) = choose|i: int, j: int|
            0 <= i < a.len() && 0 <= j < b.len() && (#[trigger] a[i]).0 <= (#[trigger] b[j]).1
                && b[j].0 <= a[i].1;
        assert(b[j].0 <= a[i].1 && a[i].0 <= b[j].1);
        assert(overlapping(b, a));
    }
    if overlapping(b, a) {
        let (i, j) = choose|i: int, j: int|
            0 <= i < b.len() && 0 <= j < a.len() && (#[trigger] b[i]).0 <= (#[trigger] a[j]).1
                && a[j].0 <= b[i].1;
        assert(a[j].0 <= b[i].1 && b[i].0 <= a[j].1);
        assert(overlapping(a, b));
    }
    assert(sharing(left.symbol_footprint, right.symbol_footprint) == sharing(
        right.symbol_footprint,
        left.symbol_footprint,
    ));
}

/// The contents of a list of candidates.
pub open spec fn views(c: Seq<PolicyEditCandidate>) -> Seq<CandidateView> {
    c.map_values(|x: PolicyEditCandidate| x@)
}

/// Whether a candidate conflicts with one of a list.
pub open spec fn conflicts_any(
    c: CandidateView,
    others: Seq<CandidateView>,
    t: SolverTuning,
) -> bool {
    exists|i: int| 0 <= i < others.len() && conflict(c, #[trigger] others[i], t)
}

/// The candidates that neither break a hard clause nor conflict with what is
/// selected already.
pub open spec fn contenders(
    kept: Seq<CandidateView>,
    selected: Seq<CandidateView>,
    t: SolverTuning,
) -> Seq<CandidateView>
    decreases kept.len(),
{
    if kept.len() == 0 {
        Seq::empty()
    } else {
        let rest = contenders(kept.drop_last(), selected, t);
        let c = kept.last();
        if clause::touches_hard_clause(c.hard_constraints_touched) || conflicts_any(
            c,
            selected,
            t,
        ) {
            rest
        } else {
            rest.push(c)
        }
    }
}

/// The graph of the conflicts among candidates.
pub open spec fn conflicts_among(nodes: Seq<CandidateView>, t: SolverTuning) -> conflict_graph::Graph {
    conflict_graph::Graph {
        n: nodes.len(),
        edge: |i: int, j: int|
            0 <= i < nodes.len() && 0 <= j < nodes.len() && i != j && conflict(
                nodes[i],
                nodes[j],
                t,
            ),
    }
}

/// What each candidate weighs when a set is chosen: its utility, but never
/// less than nothing.
pub open spec fn weights_of(
    nodes: Seq<CandidateView>,
    stage: RetryScopeStage,
    t: SolverTuning,
) -> Seq<i128> {
    nodes.map_values(
        |c: CandidateView|
            if utility(c, stage, t) > 0 {
                utility(c, stage, t) as i128
            } else {
                0i128
            },
    )
}

/// The lines of the candidates, one by one.
pub open spec fn node_lines(nodes: Seq<CandidateView>) -> Seq<usize> {
    nodes.map_values(|c: CandidateView| c.line)
}

/// The order in which candidates are taken: by utility, then by confidence,
/// then by lower risk, then by line.
pub open spec fn precedes(
    left: CandidateView,
    right: CandidateView,
    stage: RetryScopeStage,
    t: SolverTuning,
) -> bool {
    let a = utility(left, stage, t);
    let b = utility(right, stage, t);
    if a != b {
        a > b
    } else if left.confidence != right.confidence {
        left.confidence > right.confidence
    } else if left.risk_tier != right.risk_tier {
        left.risk_tier.precedence() > right.risk_tier.precedence()
    } else {
        left.line < right.line
    }
}

/// The part of a choice that lies in `part`.
pub open spec fn restricted(chosen: Seq<bool>, part: Seq<usize>) -> Seq<bool> {
    Seq::new(chosen.len(), |k: int| chosen[k] && part.contains(k as usize))
}

/// Whether a component is settled: the best set where the component is small
/// enough to search, else each candidate that no chosen, preceding one
/// conflicts with.
pub open spec fn settles(
    nodes: Seq<CandidateView>,
    chosen: Seq<bool>,
    part: Seq<usize>,
    stage: RetryScopeStage,
    t: SolverTuning,
) -> bool {
    let g = conflicts_among(nodes, t);
    if part.len() <= t.component_threshold {
        conflict_search::is_best(
            g,
            weights_of(nodes, stage, t),
            node_lines(nodes),
            part,
            restricted(chosen, part),
        )
    } else {
        forall|k: int|
            0 <= k < nodes.len() && part.contains(k as usize) ==> (#[trigger] chosen[k]
                <==> !outranked(nodes, chosen, part, k, stage, t))
    }
}

/// Whether a chosen candidate of `part` precedes candidate `k` and conflicts
/// with it.
pub open spec fn outranked(
    nodes: Seq<CandidateView>,
    chosen: Seq<bool>,
    part: Seq<usize>,
    k: int,
    stage: RetryScopeStage,
    t: SolverTuning,
) -> bool {
    exists|j: int|
        0 <= j < nodes.len() && part.contains(j as usize) && #[trigger] chosen[j] && j != k
            && conflict(nodes[k], nodes[j], t) && precedes(nodes[j], nodes[k], stage, t)
}

/// Whether `chosen` is what the solver accepts among candidates that do not
/// share a line.
pub open spec fn is_selection(
    nodes: Seq<CandidateView>,
    chosen: Seq<bool>,
    stage: RetryScopeStage,
    t: SolverTuning,
) -> bool {
    let g = conflicts_among(nodes, t);
    &&& chosen.len() == nodes.len()
    &&& conflict_search::independent(g, chosen)
    &&& forall|part: Seq<usize>| #[trigger]
        conflict_graph::is_component(g, part) ==> settles(nodes, chosen, part, stage, t)
}

/// The chosen candidates, in order.
pub open spec fn picked(nodes: Seq<CandidateView>, chosen: Seq<bool>) -> Seq<CandidateView>
    decreases nodes.len(),
{
    if nodes.len() == 0 {
        Seq::empty()
    } else {
        let rest = picked(nodes.drop_last(), chosen);
        if chosen[nodes.len() - 1] {
            rest.push(nodes.last())
        } else {
            rest
        }
    }
}

proof fn lemma_precedes_order(
    a: CandidateView,
    b: CandidateView,
    c: CandidateView,
    stage: RetryScopeStage,
    t: SolverTuning,
)
    ensures
        a.line != b.line ==> precedes(a, b, stage, t) || precedes(b, a, stage, t),
        precedes(a, b, stage, t) ==> !precedes(b, a, stage, t),
        precedes(a, b, stage, t) && precedes(b, c, stage, t) ==> precedes(a, c, stage, t),
{
}

/// The candidates at the given indices.
spec fn at(c: Seq<PolicyEditCandidate>, indices: Seq<usize>) -> Seq<CandidateView> {
    indices.map_values(|i: usize| c[i as int]@)
}

/// Whether each index is one of the list.
spec fn inside(indices: Seq<usize>, n: int) -> bool {
    forall|k: int| 0 <= k < indices.len() ==> (#[trigger] indices[k]) < n
}

/// What came of a set of candidates.
pub struct ConflictResult {
    pub accepted: Vec<PolicyEditCandidate>,
    pub dropped_lines: BTreeSet<usize>,
    pub hard_blocked_lines: BTreeSet<usize>,
}

/// The lines of the candidates that break a hard clause.
pub open spec fn hard_lines(c: Seq<CandidateView>) -> Set<usize> {
    Set::new(
        |line: usize|
            exists|i: int|
                0 <= i < c.len() && (#[trigger] c[i]).line == line && clause::touches_hard_clause(
                    c[i].hard_constraints_touched,
                ),
    )
}

/// Chooses among candidate edits.
pub struct GlobalConflictSolver;

impl GlobalConflictSolver {
    pub fn utility_score(
        candidate: &PolicyEditCandidate,
        scope_stage: RetryScopeStage,
        tuning: &SolverTuning,
    ) -> (r: i128)
        ensures
            r == utility(candidate@, scope_stage, *tuning),
            -WEIGHT_LIMIT < r < WEIGHT_LIMIT,
    {
        let stabilizer: u32 = match candidate.risk_tier {
            CandidateRiskTier::Low => tuning.stabilizer_bonus_low,
            CandidateRiskTier::Medium => tuning.stabilizer_bonus_medium,
            CandidateRiskTier::High => 0,
        };
        let scope_bonus: u32 = match candidate.risk_tier {
            CandidateRiskTier::Low => tuning.scope_bonus_low,
            _ => tuning.scope_bonus_other,
        };
        let scope: u32 = match scope_stage {
            RetryScopeStage::Full => 0,
            RetryScopeStage::CulpritRegion => scope_bonus / 2,
            RetryScopeStage::NodeLocal | RetryScopeStage::LineLocal => scope_bonus,
        };
        let risk: u32 = match candidate.risk_tier {
            CandidateRiskTier::Low => 0,
            CandidateRiskTier::Medium => tuning.risk_penalty_medium,
            CandidateRiskTier::High => tuning.risk_penalty_high,
        };
        let ranges: u128 = candidate.range_footprint.len() as u128;
        let symbols: u128 = candidate.symbol_footprint.len() as u128;
        let range_weight: u128 = tuning.range_weight as u128;
        let symbol_weight: u128 = tuning.symbol_weight as u128;
        assert(0 <= ranges * range_weight <= 0x1_0000_0000_0000_0000 * 0x1_0000_0000)
            by (nonlinear_arith)
            requires
                0 <= ranges <= 0x1_0000_0000_0000_0000,
                0 <= range_weight <= 0x1_0000_0000,
        ;
        assert(0 <= symbols * symbol_weight <= 0x1_0000_0000_0000_0000 * 0x1_0000_0000)
            by (nonlinear_arith)
            requires
                0 <= symbols <= 0x1_0000_0000_0000_0000,
                0 <= symbol_weight <= 0x1_0000_0000,
        ;
        let cost: u128 = ranges * range_weight + symbols * symbol_weight;
        let footprint: i128 = if cost <= FOOTPRINT_LIMIT as u128 {
            cost as i128
        } else {
            FOOTPRINT_LIMIT as i128
        };
        candidate.style_gain as i128 + candidate.confidence as i128 + stabilizer as i128
            + scope as i128 - risk as i128 - footprint
    }

    /// Whether a mask of touched clauses holds a hard one.
    pub fn violates_hard_constraints(mask: u16) -> (r: bool)
        ensures
            r == clause::touches_hard_clause(mask),
    {
        let clauses = clause_list();
        let mut i: usize = 0;
        while i < clauses.len()
            invariant
                clauses@ == clause::all_clauses(),
                i <= clauses@.len(),
                forall|k: int|
                    0 <= k < i ==> !((#[trigger] clauses@[k]).is_hard() && mask & clauses@[k].mask()
                        != 0),
            decreases clauses@.len() - i,
        {
            let one = clauses[i];
            if one != SemanticInvariantClause::MacroRegionSafety && mask & one.bit() != 0 {
                assert(one.is_hard() && mask & one.mask() != 0);
                return true;
            }
            i += 1;
        }
        proof {
            assert forall|one: SemanticInvariantClause| one.is_hard() implies mask
                & #[trigger] one.mask() == 0 by {
                clause::lemma_all_clauses_complete(one);
                assert(clauses@[one.position()] == one);
            }
        }
        false
    }

    pub fn ranges_overlap(left: &[(usize, usize)], right: &[(usize, usize)]) -> (r: bool)
        ensures
            r == overlapping(left@, right@),
    {
        let mut i: usize = 0;
        while i < left.len()
            invariant
                i <= left@.len(),
                forall|a: int, b: int|
                    0 <= a < i && 0 <= b < right@.len() ==> !((#[trigger] left@[a]).0 <= (
                    #[trigger] right@[b]).1 && right@[b].0 <= left@[a].1),
            decreases left@.len() - i,
        {
            let mut j: usize = 0;
            while j < right.len()
                invariant
                    i < left@.len(),
                    j <= right@.len(),
                    forall|b: int|
                        0 <= b < j ==> !(left@[i as int].0 <= (#[trigger] right@[b]).1
                            && right@[b].0 <= left@[i as int].1),
                decreases right@.len() - j,
            {
                if left[i].0 <= right[j].1 && right[j].0 <= left[i].1 {
                    return true;
                }
                j += 1;
            }
            i += 1;
        }
        false
    }

    pub fn symbols_overlap(left: &[u64], right: &[u64]) -> (r: bool)
        ensures
            r == sharing(left@, right@),
    {
        let mut i: usize = 0;
        while i < left.len()
            invariant
                i <= left@.len(),
                forall|a: int| 0 <= a < i ==> !right@.contains(#[trigger] left@[a]),
            decreases left@.len() - i,
        {
            let mut j: usize = 0;
            while j < right.len()
                invariant
                    i < left@.len(),
                    j <= right@.len(),
                    forall|b: int| 0 <= b < j ==> #[trigger] right@[b] != left@[i as int],
                decreases right@.len() - j,
            {
                if left[i] == right[j] {
                    proof {
                        assert(left@.contains(left@[i as int]));
                        assert(right@.contains(left@[i as int]));
                    }
                    return true;
                }
                j += 1;
            }
            i += 1;
        }
        proof {
            if sharing(left@, right@) {
                let symbol = choose|symbol: u64| left@.contains(symbol) && right@.contains(symbol);
                let a = choose|a: int| 0 <= a < left@.len() && left@[a] == symbol;
                assert(!right@.contains(left@[a]));
            }
        }
        false
    }

    pub fn is_semantic_rewrite_policy(catalog: &PolicyCatalog, policy: &str) -> (r: bool)
        requires
            catalog.wf(),
        ensures
            r == catalog::named_capabilities(policy@).semantic_rewrite,
    {
        catalog.is_semantic_rewrite(policy)
    }

    /// Whether two candidates cannot both be accepted.
    pub fn conflicts(
        catalog: &PolicyCatalog,
        left: &PolicyEditCandidate,
        right: &PolicyEditCandidate,
        tuning: &SolverTuning,
    ) -> (r: bool)
        requires
            catalog.wf(),
        ensures
            r == conflict(left@, right@, *tuning),
    {
        if str_eq(left.policy.as_str(), right.policy.as_str()) {
            return left.line == right.line;
        }
        if catalog.bypasses_line_conflict(left.policy.as_str()) || catalog.bypasses_line_conflict(
            right.policy.as_str(),
        ) {
            return false;
        }
        if left.line == right.line {
            return true;
        }
        if Self::ranges_overlap(
            left.range_footprint.as_slice(),
            right.range_footprint.as_slice(),
        ) {
            return true;
        }
        let line_gap: usize = if left.line <= right.line {
            right.line - left.line
        } else {
            left.line - right.line
        };
        let radius: usize = if left.impact_radius <= right.impact_radius {
            right.impact_radius
        } else {
            left.impact_radius
        };
        if Self::symbols_overlap(
            left.symbol_footprint.as_slice(),
            right.symbol_footprint.as_slice(),
        ) {
            let semantic_sensitive = Self::is_semantic_rewrite_policy(
                catalog,
                left.policy.as_str(),
            ) || Self::is_semantic_rewrite_policy(catalog, right.policy.as_str())
                || left.risk_tier == CandidateRiskTier::High || right.risk_tier
                == CandidateRiskTier::High;
            let fuzzy_min: usize = if semantic_sensitive {
                tuning.fuzzy_min_semantic
            } else {
                tuning.fuzzy_min_other
            };
            let neighborhood: usize = if radius <= fuzzy_min {
                fuzzy_min
            } else {
                radius
            };
            if line_gap <= neighborhood {
                return true;
            }
        }
        (left.zone == PolicyZone::Preprocessor || right.zone == PolicyZone::Preprocessor)
            && left.after_fingerprint != right.after_fingerprint && line_gap <= radius
    }

    /// Whether a candidate displaces an earlier one for the same line.
    fn displaces_existing(
        new: &PolicyEditCandidate,
        old: &PolicyEditCandidate,
        scope_stage: RetryScopeStage,
        tuning: &SolverTuning,
    ) -> (r: bool)
        ensures
            r == displaces(new@, old@, scope_stage, *tuning),
    {
        let new_utility: i128 = Self::utility_score(new, scope_stage, tuning);
        let old_utility: i128 = Self::utility_score(old, scope_stage, tuning);
        let confidence: i128 = new.confidence as i128 - old.confidence as i128;
        let tolerance: i128 = CONFIDENCE_TOLERANCE as i128;
        new_utility > old_utility || (new_utility == old_utility && confidence > tolerance) || (
        new_utility == old_utility && -tolerance <= confidence && confidence <= tolerance
            && new.risk_tier.precedence_score() > old.risk_tier.precedence_score())
    }

    /// The index of the candidate that stays for a line.
    fn survivor_of(
        incoming: &[PolicyEditCandidate],
        line: usize,
        scope_stage: RetryScopeStage,
        tuning: &SolverTuning,
    ) -> (r: Option<usize>)
        ensures
            match r {
                Some(i) => i < incoming@.len() && survivor(
                    views(incoming@),
                    line,
                    incoming@.len() as int,
                    scope_stage,
                    *tuning,
                ) == Some(i as int),
                None => !line_set(views(incoming@)).contains(line),
            },
    {
        let ghost c = views(incoming@);
        let mut best: Option<usize> = None;
        let mut i: usize = 0;
        while i < incoming.len()
            invariant
                i <= incoming@.len(),
                c == views(incoming@),
                match best {
                    Some(b) => b < i && survivor(c, line, i as int, scope_stage, *tuning) == Some(
                        b as int,
                    ),
                    None => survivor(c, line, i as int, scope_stage, *tuning) is None && (forall|
                        k: int,
                    |
                        0 <= k < i ==> (#[trigger] c[k]).line != line),
                },
            decreases incoming@.len() - i,
        {
            assert(c[i as int] == incoming@[i as int]@);
            if incoming[i].line == line {
                match best {
                    None => {
                        best = Some(i);
                    },
                    Some(old) => {
                        assert(c[old as int] == incoming@[old as int]@);
                        if Self::displaces_existing(
                            &incoming[i],
                            &incoming[old],
                            scope_stage,
                            tuning,
                        ) {
                            best = Some(i);
                        }
                    },
                }
            }
            i += 1;
        }
        proof {
            if best is None && line_set(c).contains(line) {
                let all = c.map_values(|x: CandidateView| x.line);
                let k = choose|k: int| 0 <= k < all.len() && all[k] == line;
                assert(c[k].line == line);
            }
        }
        best
    }

    /// One candidate for each line: the indices of those that stay, in the
    /// order of the lines.
    pub fn consolidate_by_line(
        incoming: &[PolicyEditCandidate],
        scope_stage: RetryScopeStage,
        tuning: &SolverTuning,
    ) -> (r: Vec<usize>)
        ensures
            forall|k: int| 0 <= k < r@.len() ==> (#[trigger] r@[k]) < incoming@.len(),
            r@.map_values(|i: usize| incoming@[i as int]@) == consolidated(
                views(incoming@),
                scope_stage,
                *tuning,
            ),
    {
        let ghost c = views(incoming@);
        let mut set: BTreeSet<usize> = BTreeSet::new();
        let mut i: usize = 0;
        while i < incoming.len()
            invariant
                i <= incoming@.len(),
                c == views(incoming@),
                forall|line: usize|
                    set@.contains(line) <==> exists|k: int| 0 <= k < i && (#[trigger] c[k]).line
                        == line,
            decreases incoming@.len() - i,
        {
            let ghost was = set@;
            set.insert(incoming[i].line);
            proof {
                assert forall|line: usize| set@.contains(line) <==> exists|k: int|
                    0 <= k < i + 1 && (#[trigger] c[k]).line == line by {
                    if was.contains(line) {
                        let k = choose|k: int| 0 <= k < i && (#[trigger] c[k]).line == line;
                        assert(0 <= k < i + 1 && c[k].line == line);
                    }
                    if line == incoming@[i as int].line {
                        assert(c[i as int].line == line);
                    }
                    if exists|k: int| 0 <= k < i + 1 && (#[trigger] c[k]).line == line {
                        let k = choose|k: int| 0 <= k < i + 1 && (#[trigger] c[k]).line == line;
                        if k == i {
                            assert(c[k] == incoming@[i as int]@);
                        }
                    }
                }
            }
            i += 1;
        }
        proof {
            let all = c.map_values(|x: CandidateView| x.line);
            assert forall|line: usize| set@.contains(line) <==> line_set(c).contains(line) by {
                if set@.contains(line) {
                    let k = choose|k: int| 0 <= k < c.len() && (#[trigger] c[k]).line == line;
                    assert(all[k] == line);
                }
                if line_set(c).contains(line) {
                    let k = choose|k: int| 0 <= k < all.len() && all[k] == line;
                    assert(c[k].line == line);
                }
            }
            assert(set@ =~= line_set(c));
        }
        let order = lines::lines_of(&set);
        let mut r: Vec<usize> = Vec::new();
        let mut j: usize = 0;
        while j < order.len()
            invariant
                c == views(incoming@),
                order@ == lines::listing(line_set(c)),
                order@.to_set() == line_set(c),
                j <= order@.len(),
                r@.len() == j,
                inside(r@, incoming@.len() as int),
                forall|k: int|
                    0 <= k < j ==> survivor(
                        c,
                        #[trigger] order@[k],
                        c.len() as int,
                        scope_stage,
                        *tuning,
                    ) == Some(r@[k] as int),
            decreases order@.len() - j,
        {
            assert(order@.to_set().contains(order@[j as int]));
            match Self::survivor_of(incoming, order[j], scope_stage, tuning) {
                Some(one) => {
                    r.push(one);
                },
                None => {
                    assert(false);
                },
            }
            j += 1;
        }
        proof {
            let mine = r@.map_values(|i: usize| incoming@[i as int]@);
            let wanted = consolidated(c, scope_stage, *tuning);
            assert forall|k: int| 0 <= k < mine.len() implies mine[k] == wanted[k] by {
                assert(survivor(c, order@[k], c.len() as int, scope_stage, *tuning) == Some(
                    r@[k] as int,
                ));
                assert(r@[k] < incoming@.len());
                assert(c[r@[k] as int] == incoming@[r@[k] as int]@);
            }
            assert(mine =~= wanted);
        }
        r
    }

    /// The conflicts of each candidate with the others.
    fn build_conflict_adjacency(
        catalog: &PolicyCatalog,
        incoming: &[PolicyEditCandidate],
        nodes: &[usize],
        tuning: &SolverTuning,
    ) -> (adjacency: Vec<Vec<usize>>)
        requires
            catalog.wf(),
            inside(nodes@, incoming@.len() as int),
        ensures
            conflict_graph::is_graph(adjacency@),
            conflict_graph::graph_of(adjacency@) == conflicts_among(
                at(incoming@, nodes@),
                *tuning,
            ),
    {
        let ghost views = at(incoming@, nodes@);
        let ghost g = conflicts_among(views, *tuning);
        let mut adjacency: Vec<Vec<usize>> = Vec::new();
        let mut i: usize = 0;
        while i < nodes.len()
            invariant
                catalog.wf(),
                inside(nodes@, incoming@.len() as int),
                views == at(incoming@, nodes@),
                g == conflicts_among(views, *tuning),
                i <= nodes@.len(),
                adjacency@.len() == i,
                forall|a: int, k: int|
                    0 <= a < i && 0 <= k < adjacency@[a]@.len() ==> (#[trigger] adjacency@[a]@[k])
                        < nodes@.len(),
                forall|a: int, b: int|
                    0 <= a < i && 0 <= b < nodes@.len() ==> (#[trigger] adjacency@[a]@.contains(
                        b as usize,
                    ) <==> (g.edge)(a, b)),
            decreases nodes@.len() - i,
        {
            let mut row: Vec<usize> = Vec::new();
            let mut j: usize = 0;
            while j < nodes.len()
                invariant
                    catalog.wf(),
                    inside(nodes@, incoming@.len() as int),
                    views == at(incoming@, nodes@),
                    g == conflicts_among(views, *tuning),
                    i < nodes@.len(),
                    j <= nodes@.len(),
                    forall|k: int| 0 <= k < row@.len() ==> (#[trigger] row@[k]) < j,
                    forall|b: int|
                        0 <= b < j ==> (#[trigger] row@.contains(b as usize) <==> (g.edge)(
                            i as int,
                            b,
                        )),
                decreases nodes@.len() - j,
            {
                let ghost was = row@;
                assert(nodes@[i as int] < incoming@.len() && nodes@[j as int] < incoming@.len());
                assert(views[i as int] == incoming@[nodes@[i as int] as int]@);
                assert(views[j as int] == incoming@[nodes@[j as int] as int]@);
                if i != j && Self::conflicts(
                    catalog,
                    &incoming[nodes[i]],
                    &incoming[nodes[j]],
                    tuning,
                ) {
                    row.push(j);
                    assert(row@[row@.len() - 1] == j);
                }
                proof {
                    assert forall|b: int| 0 <= b < j + 1 implies (#[trigger] row@.contains(
                        b as usize,
                    ) <==> (g.edge)(i as int, b)) by {
                        if row@.contains(b as usize) {
                            let k = choose|k: int| 0 <= k < row@.len() && row@[k] == b as usize;
                            if k < was.len() {
                                assert(was[k] == b as usize);
                                assert(was.contains(b as usize));
                            }
                        }
                        if b < j && was.contains(b as usize) {
                            let k = choose|k: int| 0 <= k < was.len() && was[k] == b as usize;
                            assert(row@[k] == b as usize);
                        }
                    }
                }
                j += 1;
            }
            adjacency.push(row);
            i += 1;
        }
        proof {
            let mine = conflict_graph::graph_of(adjacency@);
            assert forall|a: int, b: int| #[trigger] (mine.edge)(a, b) == (g.edge)(a, b) by {
                if 0 <= a < nodes@.len() && 0 <= b < nodes@.len() {
                    assert(adjacency@[a]@.contains(b as usize) <==> (g.edge)(a, b));
                }
            }
            assert(mine.edge =~= g.edge);
            assert(mine =~= g);
            assert forall|a: int, b: int| #[trigger]
                conflict_graph::adjacent(g, a, b) implies conflict_graph::adjacent(g, b, a) by {
                lemma_conflict_symmetric(views[a], views[b], *tuning);
            }
        }
        adjacency
    }

    /// Whether one candidate is taken before another.
    fn takes_precedence(
        left: &PolicyEditCandidate,
        right: &PolicyEditCandidate,
        scope_stage: RetryScopeStage,
        tuning: &SolverTuning,
    ) -> (r: bool)
        ensures
            r == precedes(left@, right@, scope_stage, *tuning),
    {
        let a: i128 = Self::utility_score(left, scope_stage, tuning);
        let b: i128 = Self::utility_score(right, scope_stage, tuning);
        if a != b {
            a > b
        } else if left.confidence != right.confidence {
            left.confidence > right.confidence
        } else if left.risk_tier != right.risk_tier {
            left.risk_tier.precedence_score() > right.risk_tier.precedence_score()
        } else {
            left.line < right.line
        }
    }

    /// The nodes of a component, in the order in which they are taken.
    fn order_by_preference(
        incoming: &[PolicyEditCandidate],
        nodes: &[usize],
        part: &[usize],
        scope_stage: RetryScopeStage,
        tuning: &SolverTuning,
    ) -> (ordered: Vec<usize>)
        requires
            inside(nodes@, incoming@.len() as int),
            inside(part@, nodes@.len() as int),
            part@.no_duplicates(),
            node_lines(at(incoming@, nodes@)).no_duplicates(),
        ensures
            ordered@.len() == part@.len(),
            ordered@.no_duplicates(),
            forall|x: usize| #[trigger] ordered@.contains(x) <==> part@.contains(x),
            inside(ordered@, nodes@.len() as int),
            ranked(at(incoming@, nodes@), ordered@, scope_stage, *tuning),
    {
        let ghost views = at(incoming@, nodes@);
        let mut ordered: Vec<usize> = Vec::new();
        let mut i: usize = 0;
        while i < part.len()
            invariant
                inside(nodes@, incoming@.len() as int),
                inside(part@, nodes@.len() as int),
                part@.no_duplicates(),
                views == at(incoming@, nodes@),
                node_lines(views).no_duplicates(),
                i <= part@.len(),
                ordered@.len() == i,
                inside(ordered@, nodes@.len() as int),
                forall|x: usize| #[trigger]
                    ordered@.contains(x) <==> part@.take(i as int).contains(x),
                ranked(views, ordered@, scope_stage, *tuning),
            decreases part@.len() - i,
        {
            let node = part[i];
            assert(part@[i as int] < nodes@.len());
            assert(nodes@[node as int] < incoming@.len());
            assert(views[node as int] == incoming@[nodes@[node as int] as int]@);
            let mut pos: usize = 0;
            while pos < ordered.len() && !Self::takes_precedence(
                &incoming[nodes[node]],
                &incoming[nodes[ordered[pos]]],
                scope_stage,
                tuning,
            )
                invariant
                    inside(nodes@, incoming@.len() as int),
                    inside(ordered@, nodes@.len() as int),
                    node < nodes@.len(),
                    views == at(incoming@, nodes@),
                    views[node as int] == incoming@[nodes@[node as int] as int]@,
                    nodes@[node as int] < incoming@.len(),
                    pos <= ordered@.len(),
                    forall|k: int|
                        0 <= k < pos ==> !precedes(
                            views[node as int],
                            views[#[trigger] ordered@[k] as int],
                            scope_stage,
                            *tuning,
                        ),
                decreases ordered@.len() - pos,
            {
                assert(ordered@[pos as int] < nodes@.len());
                assert(nodes@[ordered@[pos as int] as int] < incoming@.len());
                pos += 1;
            }
            let ghost was = ordered@;
            proof {
                assert(!was.contains(node)) by {
                    if was.contains(node) {
                        assert(part@.take(i as int).contains(node));
                        let k = choose|k: int|
                            0 <= k < i && part@.take(i as int)[k] == node;
                        assert(part@[k] == part@[i as int]);
                    }
                }
                if pos < was.len() {
                    assert(was[pos as int] < nodes@.len());
                    assert(nodes@[was[pos as int] as int] < incoming@.len());
                    assert(views[was[pos as int] as int]
                        == incoming@[nodes@[was[pos as int] as int] as int]@);
                }
                lemma_insert_ranked(views, was, node, pos as int, scope_stage, *tuning);
            }
            ordered.insert(pos, node);
            proof {
                let next = part@.take(i + 1);
                assert(next =~= part@.take(i as int).push(node));
                assert forall|x: usize| #[trigger] ordered@.contains(x) <==> next.contains(x) by {
                    if ordered@.contains(x) {
                        let k = choose|k: int| 0 <= k < ordered@.len() && ordered@[k] == x;
                        if k < pos {
                            assert(was[k] == x);
                            assert(was.contains(x));
                            assert(part@.take(i as int).contains(x));
                            let m = choose|m: int| 0 <= m < i && part@.take(i as int)[m] == x;
                            assert(next[m] == x);
                        } else if k > pos {
                            assert(was[k - 1] == x);
                            assert(was.contains(x));
                            assert(part@.take(i as int).contains(x));
                            let m = choose|m: int| 0 <= m < i && part@.take(i as int)[m] == x;
                            assert(next[m] == x);
                        } else {
                            assert(next[i as int] == x);
                        }
                    }
                    if next.contains(x) {
                        let m = choose|m: int| 0 <= m < next.len() && next[m] == x;
                        if m < i {
                            assert(part@.take(i as int)[m] == x);
                            assert(was.contains(x));
                            let k = choose|k: int| 0 <= k < was.len() && was[k] == x;
                            if k < pos {
                                assert(ordered@[k] == x);
                            } else {
                                assert(ordered@[k + 1] == x);
                            }
                        } else {
                            assert(ordered@[pos as int] == x);
                        }
                    }
                }
                assert forall|k: int| 0 <= k < ordered@.len() implies (#[trigger] ordered@[k])
                    < nodes@.len() by {
                    if k < pos {
                        assert(was[k] < nodes@.len());
                    } else if k > pos {
                        assert(was[k - 1] < nodes@.len());
                    }
                }
            }
            i += 1;
        }
        proof {
            assert(part@.take(part@.len() as int) =~= part@);
            assert forall|a: int, b: int|
                0 <= a < b < ordered@.len() implies ordered@[a] != ordered@[b] by {
                lemma_precedes_order(
                    views[ordered@[a] as int],
                    views[ordered@[b] as int],
                    views[ordered@[b] as int],
                    scope_stage,
                    *tuning,
                );
            }
        }
        ordered
    }
}

/// Whether each node precedes the ones that follow it.
spec fn ranked(
    nodes: Seq<CandidateView>,
    ordered: Seq<usize>,
    stage: RetryScopeStage,
    t: SolverTuning,
) -> bool {
    forall|a: int, b: int|
        0 <= a < b < ordered.len() ==> precedes(
            nodes[#[trigger] ordered[a] as int],
            nodes[#[trigger] ordered[b] as int],
            stage,
            t,
        )
}

proof fn lemma_insert_ranked(
    nodes: Seq<CandidateView>,
    ordered: Seq<usize>,
    node: usize,
    pos: int,
    stage: RetryScopeStage,
    t: SolverTuning,
)
    requires
        node_lines(nodes).no_duplicates(),
        inside(ordered, nodes.len() as int),
        node < nodes.len(),
        !ordered.contains(node),
        ranked(nodes, ordered, stage, t),
        0 <= pos <= ordered.len(),
        forall|k: int|
            0 <= k < pos ==> !precedes(
                nodes[node as int],
                nodes[#[trigger] ordered[k] as int],
                stage,
                t,
            ),
        pos < ordered.len() ==> precedes(
            nodes[node as int],
            nodes[ordered[pos] as int],
            stage,
            t,
        ),
    ensures
        ranked(nodes, ordered.insert(pos, node), stage, t),
{
    let now = ordered.insert(pos, node);
    let mine = nodes[node as int];
    assert forall|a: int, b: int| 0 <= a < b < now.len() implies precedes(
        nodes[#[trigger] now[a] as int],
        nodes[#[trigger] now[b] as int],
        stage,
        t,
    ) by {
        if b == pos {
            let other = nodes[ordered[a] as int];
            assert(now[a] == ordered[a]);
            assert(ordered[a] < nodes.len());
            assert(ordered[a] != node);
            assert(node_lines(nodes)[ordered[a] as int] != node_lines(nodes)[node as int]);
            lemma_precedes_order(mine, other, other, stage, t);
        } else if a == pos {
            assert(now[b] == ordered[b - 1]);
            if b - 1 > pos {
                assert(precedes(
                    nodes[ordered[pos] as int],
                    nodes[ordered[b - 1] as int],
                    stage,
                    t,
                ));
                lemma_precedes_order(
                    mine,
                    nodes[ordered[pos] as int],
                    nodes[ordered[b - 1] as int],
                    stage,
                    t,
                );
            }
        } else {
            let x = if a < pos {
                a
            } else {
                a - 1
            };
            let y = if b < pos {
                b
            } else {
                b - 1
            };
            assert(now[a] == ordered[x]);
            assert(now[b] == ordered[y]);
        }
    }
}

/// Whether only membership in `part` matters for what is admissible.
proof fn lemma_same_part(
    g: conflict_graph::Graph,
    w: Seq<i128>,
    ls: Seq<usize>,
    ordered: Seq<usize>,
    part: Seq<usize>,
    d: Seq<bool>,
)
    requires
        forall|x: usize| #[trigger] ordered.contains(x) <==> part.contains(x),
        conflict_search::is_best(g, w, ls, ordered, d),
    ensures
        conflict_search::is_best(g, w, ls, part, d),
{
    assert forall|e: Seq<bool>| conflict_search::admissible(g, ordered, e)
        <==> #[trigger] conflict_search::admissible(g, part, e) by {
        if conflict_search::admissible(g, part, e) {
            assert forall|i: int| 0 <= i < e.len() && #[trigger] e[i] implies ordered.contains(
                i as usize,
            ) by {
                assert(part.contains(i as usize));
            }
        }
        if conflict_search::admissible(g, ordered, e) {
            assert forall|i: int| 0 <= i < e.len() && #[trigger] e[i] implies part.contains(
                i as usize,
            ) by {
                assert(ordered.contains(i as usize));
            }
        }
    }
    assert forall|e: Seq<bool>| #[trigger]
        conflict_search::admissible(g, part, e) implies !conflict_search::better(
        e,
        d,
        w,
        ls,
    ) by {
        assert(conflict_search::admissible(g, ordered, e));
    }
}

/// The greedy choice, said without the order: a candidate is chosen unless a
/// chosen one precedes it and conflicts with it.
proof fn lemma_greedy_outranked(
    nodes: Seq<CandidateView>,
    ordered: Seq<usize>,
    part: Seq<usize>,
    d: Seq<bool>,
    stage: RetryScopeStage,
    t: SolverTuning,
)
    requires
        nodes.len() <= usize::MAX,
        forall|x: usize| #[trigger] ordered.contains(x) <==> part.contains(x),
        inside(ordered, nodes.len() as int),
        ranked(nodes, ordered, stage, t),
        conflict_search::is_greedy(conflicts_among(nodes, t), ordered, d),
    ensures
        forall|k: int|
            0 <= k < nodes.len() && part.contains(k as usize) ==> (#[trigger] d[k] <==> !outranked(
                nodes,
                d,
                part,
                k,
                stage,
                t,
            )),
        conflict_search::within(d, part),
{
    let g = conflicts_among(nodes, t);
    assert forall|k: int| 0 <= k < nodes.len() && part.contains(k as usize) implies (#[trigger] d[k]
        <==> !outranked(nodes, d, part, k, stage, t)) by {
        assert(ordered.contains(k as usize));
        let q = choose|q: int| 0 <= q < ordered.len() && ordered[q] == k as usize;
        assert(d[ordered[q] as int] <==> !conflict_search::taken_before(g, ordered, d, q));
        if conflict_search::taken_before(g, ordered, d, q) {
            let r = choose|r: int|
                0 <= r < q && d[#[trigger] ordered[r] as int] && conflict_graph::adjacent(
                    g,
                    ordered[q] as int,
                    ordered[r] as int,
                );
            let j = ordered[r] as int;
            assert(ordered.contains(ordered[r]));
            assert(part.contains(j as usize));
            assert(precedes(nodes[ordered[r] as int], nodes[ordered[q] as int], stage, t));
            assert(d[j] && outranked(nodes, d, part, k, stage, t));
        }
        if outranked(nodes, d, part, k, stage, t) {
            let j = choose|j: int|
                0 <= j < nodes.len() && part.contains(j as usize) && #[trigger] d[j] && j != k
                    && conflict(nodes[k], nodes[j], t) && precedes(nodes[j], nodes[k], stage, t);
            assert(ordered.contains(j as usize));
            let r = choose|r: int| 0 <= r < ordered.len() && ordered[r] == j as usize;
            if r > q {
                assert(precedes(nodes[ordered[q] as int], nodes[ordered[r] as int], stage, t));
                lemma_precedes_order(nodes[j], nodes[k], nodes[k], stage, t);
            }
            assert(r < q);
            assert(d[ordered[r] as int]);
            assert(conflict_graph::adjacent(g, ordered[q] as int, ordered[r] as int));
        }
    }
    assert forall|i: int| 0 <= i < d.len() && #[trigger] d[i] implies part.contains(
        i as usize,
    ) by {
        assert(ordered.contains(i as usize));
    }
}

/// Two components that share a node are the same.
proof fn lemma_same_component(g: conflict_graph::Graph, p: Seq<usize>, q: Seq<usize>, x: usize)
    requires
        g.n <= usize::MAX,
        conflict_graph::symmetric(g),
        conflict_graph::is_component(g, p),
        conflict_graph::is_component(g, q),
        p.contains(x),
        q.contains(x),
        x < g.n,
    ensures
        p == q,
{
    assert(p.contains(x as int as usize));
    assert(q.contains(x as int as usize));
    assert(p[0] < g.n && q[0] < g.n);
    let a = p[0] as int;
    let b = q[0] as int;
    conflict_graph::lemma_connected_symmetric(g, a, x as int);
    conflict_graph::lemma_connected_symmetric(g, b, x as int);
    conflict_graph::lemma_connected_transitive(g, a, x as int, b);
    conflict_graph::lemma_connected_transitive(g, b, x as int, a);
    assert forall|y: usize| p.to_set().contains(y) <==> q.to_set().contains(y) by {
        if p.contains(y) {
            let k = choose|k: int| 0 <= k < p.len() && p[k] == y;
            assert(p[k] < g.n);
            assert(p.contains(y as int as usize));
            conflict_graph::lemma_connected_transitive(g, b, a, y as int);
            assert(q.contains(y as int as usize));
        }
        if q.contains(y) {
            let k = choose|k: int| 0 <= k < q.len() && q[k] == y;
            assert(q[k] < g.n);
            assert(q.contains(y as int as usize));
            conflict_graph::lemma_connected_transitive(g, a, b, y as int);
            assert(p.contains(y as int as usize));
        }
    }
    assert(p.to_set() =~= q.to_set());
    lines::lemma_listing_unique(p, p.to_set());
    lines::lemma_listing_unique(q, p.to_set());
}

/// What `settles` says of a component, of the choice made for it alone.
spec fn settles_alone(
    nodes: Seq<CandidateView>,
    d: Seq<bool>,
    part: Seq<usize>,
    stage: RetryScopeStage,
    t: SolverTuning,
) -> bool {
    &&& d.len() == nodes.len()
    &&& conflict_search::within(d, part)
    &&& conflict_search::independent(conflicts_among(nodes, t), d)
    &&& settles(nodes, d, part, stage, t)
}

proof fn lemma_restricted_within(d: Seq<bool>, part: Seq<usize>)
    requires
        conflict_search::within(d, part),
    ensures
        restricted(d, part) == d,
{
    assert forall|k: int| 0 <= k < d.len() implies restricted(d, part)[k] == d[k] by {
        if d[k] {
            assert(part.contains(k as usize));
        }
    }
    assert(restricted(d, part) =~= d);
}

/// What settles a component is settled by its part of a larger choice.
proof fn lemma_settles_restricted(
    nodes: Seq<CandidateView>,
    chosen: Seq<bool>,
    d: Seq<bool>,
    part: Seq<usize>,
    stage: RetryScopeStage,
    t: SolverTuning,
)
    requires
        chosen.len() == nodes.len(),
        settles_alone(nodes, d, part, stage, t),
        restricted(chosen, part) == d,
    ensures
        settles(nodes, chosen, part, stage, t),
{
    lemma_restricted_within(d, part);
    if part.len() > t.component_threshold {
        assert forall|k: int| 0 <= k < nodes.len() && part.contains(k as usize) implies (
        #[trigger] chosen[k] <==> !outranked(nodes, chosen, part, k, stage, t)) by {
            assert(restricted(chosen, part)[k] == d[k]);
            assert(d[k] <==> !outranked(nodes, d, part, k, stage, t));
            if outranked(nodes, d, part, k, stage, t) {
                let j = choose|j: int|
                    0 <= j < nodes.len() && part.contains(j as usize) && #[trigger] d[j] && j != k
                        && conflict(nodes[k], nodes[j], t) && precedes(
                        nodes[j],
                        nodes[k],
                        stage,
                        t,
                    );
                assert(restricted(chosen, part)[j] == d[j]);
                assert(chosen[j]);
            }
            if outranked(nodes, chosen, part, k, stage, t) {
                let j = choose|j: int|
                    0 <= j < nodes.len() && part.contains(j as usize) && #[trigger] chosen[j] && j
                        != k && conflict(nodes[k], nodes[j], t) && precedes(
                        nodes[j],
                        nodes[k],
                        stage,
                        t,
                    );
                assert(restricted(chosen, part)[j] == d[j]);
                assert(d[j]);
            }
        }
    }
}

impl GlobalConflictSolver {
    /// Settles one component by itself.
    fn solve_component(
        incoming: &[PolicyEditCandidate],
        nodes: &[usize],
        adjacency: &[Vec<usize>],
        weights: &[i128],
        line_list: &[usize],
        part: &[usize],
        scope_stage: RetryScopeStage,
        tuning: &SolverTuning,
    ) -> (d: Vec<bool>)
        requires
            inside(nodes@, incoming@.len() as int),
            conflict_graph::is_graph(adjacency@),
            conflict_graph::graph_of(adjacency@) == conflicts_among(
                at(incoming@, nodes@),
                *tuning,
            ),
            weights@ == weights_of(at(incoming@, nodes@), scope_stage, *tuning),
            forall|k: int| 0 <= k < weights@.len() ==> 0 <= #[trigger] weights@[k] <= WEIGHT_LIMIT,
            line_list@ == node_lines(at(incoming@, nodes@)),
            line_list@.no_duplicates(),
            inside(part@, nodes@.len() as int),
            lines::increasing(part@),
        ensures
            settles_alone(at(incoming@, nodes@), d@, part@, scope_stage, *tuning),
    {
        let ghost views = at(incoming@, nodes@);
        let ghost g = conflicts_among(views, *tuning);
        let ordered = Self::order_by_preference(incoming, nodes, part, scope_stage, tuning);
        if part.len() <= tuning.component_threshold as usize {
            let d = best_choice(adjacency, line_list, weights, ordered.as_slice());
            proof {
                lemma_same_part(g, weights@, line_list@, ordered@, part@, d@);
                lemma_restricted_within(d@, part@);
            }
            d
        } else {
            let d = greedy_choice(adjacency, ordered.as_slice());
            proof {
                lemma_greedy_outranked(views, ordered@, part@, d@, scope_stage, *tuning);
                conflict_search::lemma_greedy_independent(g, ordered@, d@);
            }
            d
        }
    }

    /// Which of the candidates at `nodes` are accepted.
    fn select_conflict_optimal(
        catalog: &PolicyCatalog,
        incoming: &[PolicyEditCandidate],
        nodes: &[usize],
        scope_stage: RetryScopeStage,
        tuning: &SolverTuning,
    ) -> (chosen: Vec<bool>)
        requires
            catalog.wf(),
            inside(nodes@, incoming@.len() as int),
            node_lines(at(incoming@, nodes@)).no_duplicates(),
        ensures
            is_selection(at(incoming@, nodes@), chosen@, scope_stage, *tuning),
    {
        let ghost views = at(incoming@, nodes@);
        let ghost g = conflicts_among(views, *tuning);
        let adjacency = Self::build_conflict_adjacency(catalog, incoming, nodes, tuning);
        let mut weights: Vec<i128> = Vec::new();
        let mut line_list: Vec<usize> = Vec::new();
        let mut i: usize = 0;
        while i < nodes.len()
            invariant
                inside(nodes@, incoming@.len() as int),
                views == at(incoming@, nodes@),
                i <= nodes@.len(),
                weights@ == weights_of(views, scope_stage, *tuning).take(i as int),
                line_list@ == node_lines(views).take(i as int),
                forall|k: int|
                    0 <= k < weights@.len() ==> 0 <= #[trigger] weights@[k] <= WEIGHT_LIMIT,
            decreases nodes@.len() - i,
        {
            assert(nodes@[i as int] < incoming@.len());
            assert(views[i as int] == incoming@[nodes@[i as int] as int]@);
            let score: i128 = Self::utility_score(&incoming[nodes[i]], scope_stage, tuning);
            weights.push(
                if score > 0 {
                    score
                } else {
                    0
                },
            );
            line_list.push(incoming[nodes[i]].line);
            i += 1;
            proof {
                let w = weights_of(views, scope_stage, *tuning);
                assert(w.take(i as int) =~= w.take(i - 1).push(w[i - 1]));
                let l = node_lines(views);
                assert(l.take(i as int) =~= l.take(i - 1).push(l[i - 1]));
            }
        }
        proof {
            let w = weights_of(views, scope_stage, *tuning);
            assert(w.take(w.len() as int) =~= w);
            let l = node_lines(views);
            assert(l.take(l.len() as int) =~= l);
        }
        let parts = connected_components(adjacency.as_slice());
        let mut chosen: Vec<bool> = vec![false; nodes.len()];
        let mut c: usize = 0;
        while c < parts.len()
            invariant
                inside(nodes@, incoming@.len() as int),
                views == at(incoming@, nodes@),
                g == conflicts_among(views, *tuning),
                conflict_graph::is_graph(adjacency@),
                conflict_graph::graph_of(adjacency@) == g,
                weights@ == weights_of(views, scope_stage, *tuning),
                forall|k: int|
                    0 <= k < weights@.len() ==> 0 <= #[trigger] weights@[k] <= WEIGHT_LIMIT,
                line_list@ == node_lines(views),
                line_list@.no_duplicates(),
                conflict_graph::are_components(g, parts@),
                c <= parts@.len(),
                chosen@.len() == nodes@.len(),
                forall|m: int|
                    0 <= m < c ==> settles_alone(
                        views,
                        restricted(chosen@, #[trigger] parts@[m]@),
                        parts@[m]@,
                        scope_stage,
                        *tuning,
                    ),
                forall|k: int|
                    0 <= k < chosen@.len() && #[trigger] chosen@[k] ==> exists|m: int|
                        0 <= m < c && (#[trigger] parts@[m])@.contains(k as usize),
            decreases parts@.len() - c,
        {
            let part = &parts[c];
            assert(conflict_graph::is_component(g, part@));
            let d = Self::solve_component(
                incoming,
                nodes,
                adjacency.as_slice(),
                weights.as_slice(),
                line_list.as_slice(),
                part.as_slice(),
                scope_stage,
                tuning,
            );
            let ghost was = chosen@;
            let mut k: usize = 0;
            while k < chosen.len()
                invariant
                    chosen@.len() == nodes@.len(),
                    was.len() == chosen@.len(),
                    d@.len() == chosen@.len(),
                    k <= chosen@.len(),
                    forall|x: int|
                        0 <= x < k ==> #[trigger] chosen@[x] == (was[x] || d@[x]),
                    forall|x: int| k <= x < chosen@.len() ==> #[trigger] chosen@[x] == was[x],
                decreases chosen@.len() - k,
            {
                if d[k] {
                    chosen.set(k, true);
                }
                k += 1;
            }
            proof {
                lemma_merge(g, parts@, c as int, was, d@, chosen@);
                assert forall|m: int| 0 <= m < c + 1 implies settles_alone(
                    views,
                    restricted(chosen@, #[trigger] parts@[m]@),
                    parts@[m]@,
                    scope_stage,
                    *tuning,
                ) by {
                    if m < c {
                        assert(restricted(chosen@, parts@[m]@) == restricted(was, parts@[m]@));
                    } else {
                        assert(restricted(chosen@, parts@[m]@) == d@);
                    }
                }
            }
            c += 1;
        }
        proof {
            lemma_selection(views, chosen@, parts@, scope_stage, *tuning);
        }
        chosen
    }
}

/// Adding the choice of one more component leaves the others alone.
proof fn lemma_merge(
    g: conflict_graph::Graph,
    parts: Seq<Vec<usize>>,
    c: int,
    was: Seq<bool>,
    d: Seq<bool>,
    now: Seq<bool>,
)
    requires
        g.n <= usize::MAX,
        conflict_graph::symmetric(g),
        conflict_graph::are_components(g, parts),
        0 <= c < parts.len(),
        was.len() == g.n,
        d.len() == g.n,
        now.len() == g.n,
        conflict_search::within(d, parts[c]@),
        forall|x: int| 0 <= x < now.len() ==> #[trigger] now[x] == (was[x] || d[x]),
        forall|k: int|
            0 <= k < was.len() && #[trigger] was[k] ==> exists|m: int|
                0 <= m < c && (#[trigger] parts[m])@.contains(k as usize),
    ensures
        forall|m: int|
            0 <= m < c ==> restricted(now, #[trigger] parts[m]@) == restricted(was, parts[m]@),
        restricted(now, parts[c]@) == d,
        forall|k: int|
            0 <= k < now.len() && #[trigger] now[k] ==> exists|m: int|
                0 <= m < c + 1 && (#[trigger] parts[m])@.contains(k as usize),
{
    assert forall|m: int| 0 <= m < c implies restricted(now, #[trigger] parts[m]@) == restricted(
        was,
        parts[m]@,
    ) by {
        assert forall|k: int| 0 <= k < now.len() implies restricted(now, parts[m]@)[k]
            == restricted(was, parts[m]@)[k] by {
            if d[k] && parts[m]@.contains(k as usize) {
                assert(parts[c]@.contains(k as usize));
                lemma_same_component(g, parts[m]@, parts[c]@, k as usize);
                assert(parts[m]@[0] < parts[c]@[0]);
            }
        }
        assert(restricted(now, parts[m]@) =~= restricted(was, parts[m]@));
    }
    assert forall|k: int| 0 <= k < now.len() implies restricted(now, parts[c]@)[k] == d[k] by {
        if was[k] && parts[c]@.contains(k as usize) {
            let m = choose|m: int| 0 <= m < c && (#[trigger] parts[m])@.contains(k as usize);
            lemma_same_component(g, parts[m]@, parts[c]@, k as usize);
            assert(parts[m]@[0] < parts[c]@[0]);
        }
        if d[k] {
            assert(parts[c]@.contains(k as usize));
        }
    }
    assert(restricted(now, parts[c]@) =~= d);
    assert forall|k: int| 0 <= k < now.len() && #[trigger] now[k] implies exists|m: int|
        0 <= m < c + 1 && (#[trigger] parts[m])@.contains(k as usize) by {
        if was[k] {
            let m = choose|m: int| 0 <= m < c && (#[trigger] parts[m])@.contains(k as usize);
            assert(0 <= m < c + 1 && parts[m]@.contains(k as usize));
        } else {
            assert(parts[c]@.contains(k as usize));
        }
    }
}

proof fn lemma_selection(
    nodes: Seq<CandidateView>,
    chosen: Seq<bool>,
    parts: Seq<Vec<usize>>,
    stage: RetryScopeStage,
    t: SolverTuning,
)
    requires
        nodes.len() <= usize::MAX,
        chosen.len() == nodes.len(),
        conflict_graph::symmetric(conflicts_among(nodes, t)),
        conflict_graph::are_components(conflicts_among(nodes, t), parts),
        forall|m: int|
            0 <= m < parts.len() ==> settles_alone(
                nodes,
                restricted(chosen, #[trigger] parts[m]@),
                parts[m]@,
                stage,
                t,
            ),
        forall|k: int|
            0 <= k < chosen.len() && #[trigger] chosen[k] ==> exists|m: int|
                0 <= m < parts.len() && (#[trigger] parts[m])@.contains(k as usize),
    ensures
        is_selection(nodes, chosen, stage, t),
{
    let g = conflicts_among(nodes, t);
    assert forall|i: int, j: int|
        0 <= i < chosen.len() && 0 <= j < chosen.len() && i != j && #[trigger] chosen[i]
            && #[trigger] chosen[j] implies !conflict_graph::adjacent(g, i, j) by {
        if conflict_graph::adjacent(g, i, j) {
            let m = choose|m: int| 0 <= m < parts.len() && (#[trigger] parts[m])@.contains(i as usize);
            assert(conflict_graph::is_component(g, parts[m]@));
            assert(parts[m]@[0] < g.n);
            conflict_graph::lemma_connected_step(g, parts[m]@[0] as int, i, j);
            assert(parts[m]@.contains(j as usize));
            let d = restricted(chosen, parts[m]@);
            assert(d[i] && d[j]);
        }
    }
    assert forall|part: Seq<usize>| #[trigger]
        conflict_graph::is_component(g, part) implies settles(nodes, chosen, part, stage, t) by {
        let x = part[0];
        assert(part[0] < g.n);
        assert(part.contains(x));
        assert(conflict_graph::covered(parts, x as int));
        let m = choose|m: int|
            0 <= m < parts.len() && (#[trigger] parts[m])@.contains(x as int as usize);
        lemma_same_component(g, part, parts[m]@, x);
        lemma_settles_restricted(
            nodes,
            chosen,
            restricted(chosen, parts[m]@),
            parts[m]@,
            stage,
            t,
        );
    }
}

/// Whether `r` is what comes of the incoming candidates, given what is
/// selected already: one candidate stays for each line; those that break a
/// hard clause are blocked; of the contenders the selection is accepted; and
/// the lines of all that stayed and was not accepted are dropped.
pub open spec fn is_outcome(
    incoming: Seq<CandidateView>,
    selected: Seq<CandidateView>,
    stage: RetryScopeStage,
    t: SolverTuning,
    accepted: Seq<CandidateView>,
    dropped: Set<usize>,
    hard_blocked: Set<usize>,
) -> bool {
    let kept = consolidated(incoming, stage, t);
    let nodes = contenders(kept, selected, t);
    &&& exists|chosen: Seq<bool>|
        #[trigger] is_selection(nodes, chosen, stage, t) && accepted == picked(nodes, chosen)
    &&& hard_blocked == hard_lines(kept)
    &&& dropped == line_set(kept).difference(line_set(accepted))
}

proof fn lemma_survivor(
    c: Seq<CandidateView>,
    line: usize,
    n: int,
    stage: RetryScopeStage,
    t: SolverTuning,
)
    requires
        0 <= n <= c.len(),
    ensures
        survivor(c, line, n, stage, t) matches Some(i) ==> 0 <= i < n && c[i].line == line,
        (exists|k: int| 0 <= k < n && (#[trigger] c[k]).line == line) ==> survivor(
            c,
            line,
            n,
            stage,
            t,
        ) is Some,
    decreases n,
{
    if n > 0 {
        lemma_survivor(c, line, n - 1, stage, t);
        if exists|k: int| 0 <= k < n && (#[trigger] c[k]).line == line {
            let k = choose|k: int| 0 <= k < n && (#[trigger] c[k]).line == line;
            if k < n - 1 {
                assert(0 <= k < n - 1 && c[k].line == line);
            }
        }
    }
}

/// After consolidation each line has one candidate, its own.
pub proof fn lemma_consolidated_lines(
    c: Seq<CandidateView>,
    stage: RetryScopeStage,
    t: SolverTuning,
)
    ensures
        node_lines(consolidated(c, stage, t)) == lines::listing(line_set(c)),
        lines::increasing(node_lines(consolidated(c, stage, t))),
        forall|k: int|
            0 <= k < consolidated(c, stage, t).len() ==> c.contains(
                #[trigger] consolidated(c, stage, t)[k],
            ),
{
    let all = c.map_values(|x: CandidateView| x.line);
    vstd::seq_lib::seq_to_set_is_finite(all);
    lines::lemma_listing_exists(line_set(c));
    let order = lines::listing(line_set(c));
    let kept = consolidated(c, stage, t);
    assert forall|k: int| 0 <= k < order.len() implies kept[k].line == order[k] && c.contains(
        #[trigger] kept[k],
    ) by {
        assert(order.to_set().contains(order[k]));
        let m = choose|m: int| 0 <= m < all.len() && all[m] == order[k];
        assert(c[m].line == order[k]);
        lemma_survivor(c, order[k], c.len() as int, stage, t);
    }
    assert(node_lines(kept) =~= order);
}

proof fn lemma_contenders(
    kept: Seq<CandidateView>,
    selected: Seq<CandidateView>,
    t: SolverTuning,
)
    requires
        lines::increasing(node_lines(kept)),
    ensures
        lines::increasing(node_lines(contenders(kept, selected, t))),
        forall|k: int|
            0 <= k < contenders(kept, selected, t).len() ==> kept.contains(
                #[trigger] contenders(kept, selected, t)[k],
            ) && !clause::touches_hard_clause(
                contenders(kept, selected, t)[k].hard_constraints_touched,
            ) && !conflicts_any(contenders(kept, selected, t)[k], selected, t),
    decreases kept.len(),
{
    if kept.len() > 0 {
        let head = kept.drop_last();
        assert forall|i: int, j: int| 0 <= i < j < node_lines(head).len() implies node_lines(
            head,
        )[i] < node_lines(head)[j] by {
            assert(node_lines(kept)[i] < node_lines(kept)[j]);
        }
        lemma_contenders(head, selected, t);
        let rest = contenders(head, selected, t);
        let now = contenders(kept, selected, t);
        assert forall|k: int| 0 <= k < now.len() implies kept.contains(#[trigger] now[k])
            && !clause::touches_hard_clause(now[k].hard_constraints_touched) && !conflicts_any(
            now[k],
            selected,
            t,
        ) by {
            if k < rest.len() {
                assert(now[k] == rest[k]);
                assert(head.contains(rest[k]));
                let m = choose|m: int| 0 <= m < head.len() && head[m] == rest[k];
                assert(kept[m] == rest[k]);
            } else {
                assert(kept[kept.len() - 1] == now[k]);
            }
        }
        assert forall|i: int, j: int| 0 <= i < j < node_lines(now).len() implies node_lines(now)[i]
            < node_lines(now)[j] by {
            if j < rest.len() {
                assert(node_lines(rest)[i] < node_lines(rest)[j]);
            } else {
                assert(now[i] == rest[i]);
                assert(head.contains(rest[i]));
                let m = choose|m: int| 0 <= m < head.len() && head[m] == rest[i];
                assert(node_lines(kept)[m] < node_lines(kept)[kept.len() - 1]);
            }
        }
    }
}

/// Whether a candidate is among the chosen ones.
spec fn is_chosen(nodes: Seq<CandidateView>, chosen: Seq<bool>, x: CandidateView) -> bool {
    exists|i: int| 0 <= i < nodes.len() && chosen[i] && #[trigger] nodes[i] == x
}

proof fn lemma_picked(nodes: Seq<CandidateView>, chosen: Seq<bool>)
    requires
        chosen.len() >= nodes.len(),
    ensures
        forall|k: int|
            0 <= k < picked(nodes, chosen).len() ==> is_chosen(
                nodes,
                chosen,
                #[trigger] picked(nodes, chosen)[k],
            ),
        forall|i: int|
            0 <= i < nodes.len() && chosen[i] ==> picked(nodes, chosen).contains(
                #[trigger] nodes[i],
            ),
    decreases nodes.len(),
{
    if nodes.len() > 0 {
        let head = nodes.drop_last();
        lemma_picked(head, chosen);
        let rest = picked(head, chosen);
        let now = picked(nodes, chosen);
        assert forall|k: int| 0 <= k < now.len() implies is_chosen(
            nodes,
            chosen,
            #[trigger] now[k],
        ) by {
            if k < rest.len() {
                assert(now[k] == rest[k]);
                assert(is_chosen(head, chosen, rest[k]));
                let i = choose|i: int|
                    0 <= i < head.len() && chosen[i] && #[trigger] head[i] == rest[k];
                assert(nodes[i] == now[k]);
            } else {
                assert(nodes[nodes.len() - 1] == now[k]);
            }
        }
        assert forall|i: int| 0 <= i < nodes.len() && chosen[i] implies now.contains(
            #[trigger] nodes[i],
        ) by {
            if i < head.len() {
                assert(head[i] == nodes[i]);
                assert(rest.contains(head[i]));
                let k = choose|k: int| 0 <= k < rest.len() && rest[k] == head[i];
                assert(now[k] == nodes[i]);
            } else {
                assert(now[now.len() - 1] == nodes[i]);
            }
        }
    }
}

impl GlobalConflictSolver {
    /// Decides which of the incoming candidates are accepted beside those
    /// selected already.
    pub fn solve(
        incoming: &[PolicyEditCandidate],
        already_selected: &[PolicyEditCandidate],
        scope_stage: RetryScopeStage,
        tuning: &SolverTuning,
    ) -> (r: ConflictResult)
        ensures
            is_outcome(
                views(incoming@),
                views(already_selected@),
                scope_stage,
                *tuning,
                views(r.accepted@),
                r.dropped_lines@,
                r.hard_blocked_lines@,
            ),
    {
        let ghost c = views(incoming@);
        let ghost selected = views(already_selected@);
        let ghost kept = consolidated(c, scope_stage, *tuning);
        let catalog = policy_catalog();
        let stay = Self::consolidate_by_line(incoming, scope_stage, tuning);
        assert(at(incoming@, stay@) =~= kept);
        let mut hard_blocked_lines: BTreeSet<usize> = BTreeSet::new();
        let mut open: Vec<usize> = Vec::new();
        let mut i: usize = 0;
        while i < stay.len()
            invariant
                catalog.wf(),
                selected == views(already_selected@),
                kept == at(incoming@, stay@),
                inside(stay@, incoming@.len() as int),
                i <= stay@.len(),
                inside(open@, incoming@.len() as int),
                at(incoming@, open@) == contenders(kept.take(i as int), selected, *tuning),
                hard_blocked_lines@ == hard_lines(kept.take(i as int)),
            decreases stay@.len() - i,
        {
            let ghost head = kept.take(i as int);
            let ghost next = kept.take(i + 1);
            assert(stay@[i as int] < incoming@.len());
            assert(kept[i as int] == incoming@[stay@[i as int] as int]@);
            let candidate = &incoming[stay[i]];
            proof {
                assert(next.drop_last() =~= head);
                assert(next.last() == candidate@);
            }
            let ghost was = hard_blocked_lines@;
            let ghost open0 = open@;
            if Self::violates_hard_constraints(candidate.hard_constraints_touched) {
                hard_blocked_lines.insert(candidate.line);
            } else if !Self::conflicts_with_any(&catalog, candidate, already_selected, tuning) {
                open.push(stay[i]);
                assert(at(incoming@, open@) =~= at(incoming@, open0).push(candidate@));
            }
            proof {
                assert forall|line: usize| hard_blocked_lines@.contains(line) <==> hard_lines(
                    next,
                ).contains(line) by {
                    if was.contains(line) {
                        let k = choose|k: int|
                            0 <= k < head.len() && (#[trigger] head[k]).line == line
                                && clause::touches_hard_clause(head[k].hard_constraints_touched);
                        assert(next[k] == head[k]);
                    }
                    if hard_lines(next).contains(line) {
                        let k = choose|k: int|
                            0 <= k < next.len() && (#[trigger] next[k]).line == line
                                && clause::touches_hard_clause(next[k].hard_constraints_touched);
                        if k < i {
                            assert(head[k] == next[k]);
                            assert(was.contains(line));
                        }
                    }
                    if clause::touches_hard_clause(candidate@.hard_constraints_touched) && line
                        == candidate@.line {
                        assert(next[i as int].line == line);
                    }
                }
                assert(hard_blocked_lines@ =~= hard_lines(next));
            }
            i += 1;
        }
        let ghost nodes = contenders(kept, selected, *tuning);
        proof {
            assert(kept.take(kept.len() as int) =~= kept);
            lemma_consolidated_lines(c, scope_stage, *tuning);
            lemma_contenders(kept, selected, *tuning);
            assert forall|a: int, b: int|
                0 <= a < node_lines(nodes).len() && 0 <= b < node_lines(nodes).len() && a
                    != b implies node_lines(nodes)[a] != node_lines(nodes)[b] by {
                if a < b {
                    assert(node_lines(nodes)[a] < node_lines(nodes)[b]);
                } else {
                    assert(node_lines(nodes)[b] < node_lines(nodes)[a]);
                }
            }
        }
        let chosen = Self::select_conflict_optimal(
            &catalog,
            incoming,
            open.as_slice(),
            scope_stage,
            tuning,
        );
        let mut accepted: Vec<PolicyEditCandidate> = Vec::new();
        let mut won: BTreeSet<usize> = BTreeSet::new();
        let mut j: usize = 0;
        while j < open.len()
            invariant
                inside(open@, incoming@.len() as int),
                nodes == at(incoming@, open@),
                chosen@.len() == nodes.len(),
                j <= open@.len(),
                views(accepted@) == picked(nodes.take(j as int), chosen@),
                won@ == line_set(views(accepted@)),
            decreases open@.len() - j,
        {
            let ghost next = nodes.take(j + 1);
            assert(open@[j as int] < incoming@.len());
            assert(nodes[j as int] == incoming@[open@[j as int] as int]@);
            proof {
                assert(next.drop_last() =~= nodes.take(j as int));
                assert(next.last() == nodes[j as int]);
            }
            if chosen[j] {
                let ghost before = views(accepted@);
                let copy = incoming[open[j]].clone();
                won.insert(copy.line);
                accepted.push(copy);
                proof {
                    assert(views(accepted@) =~= before.push(nodes[j as int]));
                    lemma_line_set_push(before, nodes[j as int]);
                }
            }
            j += 1;
        }
        assert(nodes.take(nodes.len() as int) =~= nodes);
        let mut dropped_lines: BTreeSet<usize> = BTreeSet::new();
        let mut k: usize = 0;
        while k < stay.len()
            invariant
                kept == at(incoming@, stay@),
                inside(stay@, incoming@.len() as int),
                k <= stay@.len(),
                won@ == line_set(views(accepted@)),
                dropped_lines@ == line_set(kept.take(k as int)).difference(won@),
            decreases stay@.len() - k,
        {
            assert(stay@[k as int] < incoming@.len());
            assert(kept[k as int] == incoming@[stay@[k as int] as int]@);
            let line = incoming[stay[k]].line;
            proof {
                assert(kept.take(k + 1) =~= kept.take(k as int).push(kept[k as int]));
                lemma_line_set_push(kept.take(k as int), kept[k as int]);
            }
            if !won.contains(&line) {
                dropped_lines.insert(line);
            }
            assert(dropped_lines@ =~= line_set(kept.take(k + 1)).difference(won@));
            k += 1;
        }
        assert(kept.take(kept.len() as int) =~= kept);
        ConflictResult { accepted, dropped_lines, hard_blocked_lines }
    }

    /// Whether a candidate conflicts with one of a list.
    fn conflicts_with_any(
        catalog: &PolicyCatalog,
        candidate: &PolicyEditCandidate,
        others: &[PolicyEditCandidate],
        tuning: &SolverTuning,
    ) -> (r: bool)
        requires
            catalog.wf(),
        ensures
            r == conflicts_any(candidate@, views(others@), *tuning),
    {
        let mut i: usize = 0;
        while i < others.len()
            invariant
                catalog.wf(),
                i <= others@.len(),
                forall|k: int|
                    0 <= k < i ==> !conflict(candidate@, #[trigger] views(others@)[k], *tuning),
            decreases others@.len() - i,
        {
            assert(views(others@)[i as int] == others@[i as int]@);
            if Self::conflicts(catalog, candidate, &others[i], tuning) {
                return true;
            }
            i += 1;
        }
        false
    }
}

proof fn lemma_line_set_push(c: Seq<CandidateView>, x: CandidateView)
    ensures
        line_set(c.push(x)) == line_set(c).insert(x.line),
{
    let all = c.map_values(|x: CandidateView| x.line);
    let more = c.push(x).map_values(|x: CandidateView| x.line);
    assert(more =~= all.push(x.line));
    assert forall|line: usize| more.to_set().contains(line) <==> all.to_set().insert(
        x.line,
    ).contains(line) by {
        if more.to_set().contains(line) {
            let k = choose|k: int| 0 <= k < more.len() && more[k] == line;
            if k < all.len() {
                assert(all[k] == line);
            }
        }
        if all.to_set().contains(line) {
            let k = choose|k: int| 0 <= k < all.len() && all[k] == line;
            assert(more[k] == line);
        }
        if line == x.line {
            assert(more[all.len() as int] == line);
        }
    }
    assert(more.to_set() =~= all.to_set().insert(x.line));
}

/// No two accepted candidates conflict, none conflicts with what was selected
/// before, and none breaks a hard clause.
pub proof fn lemma_accepted_compatible(
    incoming: Seq<CandidateView>,
    selected: Seq<CandidateView>,
    stage: RetryScopeStage,
    t: SolverTuning,
    accepted: Seq<CandidateView>,
    dropped: Set<usize>,
    hard_blocked: Set<usize>,
)
    requires
        is_outcome(incoming, selected, stage, t, accepted, dropped, hard_blocked),
    ensures
        forall|i: int, j: int|
            0 <= i < accepted.len() && 0 <= j < accepted.len() && accepted[i] != accepted[j]
                ==> !conflict(#[trigger] accepted[i], #[trigger] accepted[j], t),
        forall|i: int|
            0 <= i < accepted.len() ==> incoming.contains(#[trigger] accepted[i])
                && !conflicts_any(accepted[i], selected, t) && !clause::touches_hard_clause(
                accepted[i].hard_constraints_touched,
            ),
{
    let kept = consolidated(incoming, stage, t);
    let nodes = contenders(kept, selected, t);
    let g = conflicts_among(nodes, t);
    let chosen = choose|chosen: Seq<bool>|
        #[trigger] is_selection(nodes, chosen, stage, t) && accepted == picked(nodes, chosen);
    lemma_consolidated_lines(incoming, stage, t);
    lemma_contenders(kept, selected, t);
    lemma_picked(nodes, chosen);
    assert forall|i: int, j: int|
        0 <= i < accepted.len() && 0 <= j < accepted.len() && accepted[i]
            != accepted[j] implies !conflict(#[trigger] accepted[i], #[trigger] accepted[j], t) by {
        assert(is_chosen(nodes, chosen, accepted[i]));
        let a = choose|a: int|
            0 <= a < nodes.len() && chosen[a] && #[trigger] nodes[a] == accepted[i];
        assert(is_chosen(nodes, chosen, accepted[j]));
        let b = choose|b: int|
            0 <= b < nodes.len() && chosen[b] && #[trigger] nodes[b] == accepted[j];
        assert(chosen[a] && chosen[b]);
        assert(!conflict_graph::adjacent(g, a, b));
    }
    assert forall|i: int| 0 <= i < accepted.len() implies incoming.contains(#[trigger] accepted[i])
        && !conflicts_any(accepted[i], selected, t) && !clause::touches_hard_clause(
        accepted[i].hard_constraints_touched,
    ) by {
        assert(is_chosen(nodes, chosen, accepted[i]));
        let a = choose|a: int|
            0 <= a < nodes.len() && chosen[a] && #[trigger] nodes[a] == accepted[i];
        assert(kept.contains(nodes[a]));
        let m = choose|m: int| 0 <= m < kept.len() && kept[m] == nodes[a];
        assert(incoming.contains(kept[m]));
    }
}

/// The candidates that precede candidate `k`.
spec fn predecessors(
    nodes: Seq<CandidateView>,
    k: int,
    stage: RetryScopeStage,
    t: SolverTuning,
) -> Set<int> {
    vstd::set_lib::set_int_range(0, nodes.len() as int).filter(
        |j: int| precedes(nodes[j], nodes[k], stage, t),
    )
}

proof fn lemma_greedy_unique(
    nodes: Seq<CandidateView>,
    part: Seq<usize>,
    d: Seq<bool>,
    e: Seq<bool>,
    k: int,
    stage: RetryScopeStage,
    t: SolverTuning,
)
    requires
        part.len() > t.component_threshold,
        settles(nodes, d, part, stage, t),
        settles(nodes, e, part, stage, t),
        0 <= k < nodes.len(),
        part.contains(k as usize),
    ensures
        d[k] == e[k],
    decreases predecessors(nodes, k, stage, t).len(),
{
    let all = vstd::set_lib::set_int_range(0, nodes.len() as int);
    vstd::set_lib::lemma_int_range(0, nodes.len() as int);
    let mine = predecessors(nodes, k, stage, t);
    assert forall|j: int|
        0 <= j < nodes.len() && part.contains(j as usize) && precedes(
            nodes[j],
            nodes[k],
            stage,
            t,
        ) implies d[j] == e[j] by {
        let theirs = predecessors(nodes, j, stage, t);
        assert forall|x: int| theirs.contains(x) implies mine.contains(x) by {
            lemma_precedes_order(nodes[x], nodes[j], nodes[k], stage, t);
        }
        assert(mine.contains(j));
        lemma_precedes_order(nodes[j], nodes[j], nodes[j], stage, t);
        assert(!theirs.contains(j));
        assert(theirs.subset_of(mine.remove(j)));
        vstd::set_lib::lemma_len_subset(theirs, mine.remove(j));
        lemma_greedy_unique(nodes, part, d, e, j, stage, t);
    }
    if outranked(nodes, d, part, k, stage, t) {
        let j = choose|j: int|
            0 <= j < nodes.len() && part.contains(j as usize) && #[trigger] d[j] && j != k
                && conflict(nodes[k], nodes[j], t) && precedes(nodes[j], nodes[k], stage, t);
        assert(e[j]);
        assert(outranked(nodes, e, part, k, stage, t));
    }
    if outranked(nodes, e, part, k, stage, t) {
        let j = choose|j: int|
            0 <= j < nodes.len() && part.contains(j as usize) && #[trigger] e[j] && j != k
                && conflict(nodes[k], nodes[j], t) && precedes(nodes[j], nodes[k], stage, t);
        assert(d[j]);
        assert(outranked(nodes, d, part, k, stage, t));
    }
    assert(d[k] <==> !outranked(nodes, d, part, k, stage, t));
    assert(e[k] <==> !outranked(nodes, e, part, k, stage, t));
}

/// Among candidates that do not share a line, the selection is determined.
pub proof fn lemma_selection_unique(
    nodes: Seq<CandidateView>,
    d: Seq<bool>,
    e: Seq<bool>,
    stage: RetryScopeStage,
    t: SolverTuning,
)
    requires
        nodes.len() <= usize::MAX,
        node_lines(nodes).no_duplicates(),
        is_selection(nodes, d, stage, t),
        is_selection(nodes, e, stage, t),
    ensures
        d == e,
{
    let g = conflicts_among(nodes, t);
    assert forall|a: int, b: int| #[trigger]
        conflict_graph::adjacent(g, a, b) implies conflict_graph::adjacent(g, b, a) by {
        lemma_conflict_symmetric(nodes[a], nodes[b], t);
    }
    assert forall|k: int| 0 <= k < nodes.len() implies d[k] == e[k] by {
        let part = conflict_graph::lemma_component_of(g, k);
        if part.len() <= t.component_threshold {
            conflict_search::lemma_best_unique(
                g,
                weights_of(nodes, stage, t),
                node_lines(nodes),
                part,
                restricted(d, part),
                restricted(e, part),
            );
            assert(restricted(d, part)[k] == restricted(e, part)[k]);
        } else {
            lemma_greedy_unique(nodes, part, d, e, k, stage, t);
        }
    }
    assert(d =~= e);
}

/// Accepted candidates keep apart. Two of different policies, neither of which
/// may share lines with others, are on different lines, their ranges share no
/// line, and a symbol that both touch puts them further apart than either
/// reaches and than the tuning asks for. Beside a directive, edits that differ
/// in what they write are further apart than either reaches.
pub proof fn lemma_accepted_keep_apart(
    incoming: Seq<CandidateView>,
    selected: Seq<CandidateView>,
    stage: RetryScopeStage,
    t: SolverTuning,
    accepted: Seq<CandidateView>,
    dropped: Set<usize>,
    hard_blocked: Set<usize>,
    a: CandidateView,
    b: CandidateView,
)
    requires
        is_outcome(incoming, selected, stage, t, accepted, dropped, hard_blocked),
        accepted.contains(a),
        accepted.contains(b) || selected.contains(b),
        a.policy != b.policy,
        !catalog::named_behavior(a.policy).bypasses_line_conflict,
        !catalog::named_behavior(b.policy).bypasses_line_conflict,
    ensures
        ({
            let within = |n: usize| a.line <= b.line + n && b.line <= a.line + n;
            let rewrites = catalog::named_capabilities(a.policy).semantic_rewrite
                || catalog::named_capabilities(b.policy).semantic_rewrite || a.risk_tier
                == CandidateRiskTier::High || b.risk_tier == CandidateRiskTier::High;
            &&& a.line != b.line
            &&& forall|i: int, j: int|
                0 <= i < a.range_footprint.len() && 0 <= j < b.range_footprint.len() ==> (
                #[trigger] a.range_footprint[i]).1 < (#[trigger] b.range_footprint[j]).0
                    || b.range_footprint[j].1 < a.range_footprint[i].0
            &&& forall|symbol: u64| #[trigger]
                a.symbol_footprint.contains(symbol) && b.symbol_footprint.contains(symbol) ==> {
                    &&& !within(a.impact_radius)
                    &&& !within(b.impact_radius)
                    &&& rewrites ==> !within(t.fuzzy_min_semantic)
                    &&& !rewrites ==> !within(t.fuzzy_min_other)
                }
            &&& (a.zone == PolicyZone::Preprocessor || b.zone == PolicyZone::Preprocessor)
                && a.after_fingerprint != b.after_fingerprint ==> !within(a.impact_radius)
                && !within(b.impact_radius)
        }),
{
    lemma_accepted_compatible(incoming, selected, stage, t, accepted, dropped, hard_blocked);
    let i = choose|i: int| 0 <= i < accepted.len() && accepted[i] == a;
    if accepted.contains(b) {
        let j = choose|j: int| 0 <= j < accepted.len() && accepted[j] == b;
        assert(!conflict(accepted[i], accepted[j], t));
    } else {
        let j = choose|j: int| 0 <= j < selected.len() && selected[j] == b;
        assert(!conflicts_any(accepted[i], selected, t));
        assert(!conflict(accepted[i], selected[j], t));
    }
    assert(!conflict(a, b, t));
    assert(!overlapping(a.range_footprint, b.range_footprint));
    assert forall|symbol: u64| #[trigger]
        a.symbol_footprint.contains(symbol) && b.symbol_footprint.contains(
            symbol,
        ) implies sharing(a.symbol_footprint, b.symbol_footprint) by {}
}

proof fn lemma_picked_lines(nodes: Seq<CandidateView>, chosen: Seq<bool>)
    requires
        chosen.len() >= nodes.len(),
        lines::increasing(node_lines(nodes)),
    ensures
        lines::increasing(node_lines(picked(nodes, chosen))),
    decreases nodes.len(),
{
    if nodes.len() > 0 {
        let head = nodes.drop_last();
        assert forall|i: int, j: int| 0 <= i < j < node_lines(head).len() implies node_lines(
            head,
        )[i] < node_lines(head)[j] by {
            assert(node_lines(nodes)[i] < node_lines(nodes)[j]);
        }
        lemma_picked_lines(head, chosen);
        lemma_picked(head, chosen);
        let rest = picked(head, chosen);
        let now = picked(nodes, chosen);
        assert forall|i: int, j: int| 0 <= i < j < node_lines(now).len() implies node_lines(now)[i]
            < node_lines(now)[j] by {
            if j < rest.len() {
                assert(node_lines(rest)[i] < node_lines(rest)[j]);
            } else {
                assert(now[i] == rest[i]);
                assert(is_chosen(head, chosen, rest[i]));
                let m = choose|m: int|
                    0 <= m < head.len() && chosen[m] && #[trigger] head[m] == rest[i];
                assert(node_lines(nodes)[m] < node_lines(nodes)[nodes.len() - 1]);
                assert(node_lines(nodes)[m] == rest[i].line);
            }
        }
    }
}

proof fn lemma_survivor_is_best(
    c: Seq<CandidateView>,
    line: usize,
    n: int,
    stage: RetryScopeStage,
    t: SolverTuning,
)
    requires
        0 <= n <= c.len(),
    ensures
        survivor(c, line, n, stage, t) matches Some(i) ==> forall|k: int|
            0 <= k < n && (#[trigger] c[k]).line == line ==> utility(c[k], stage, t) <= utility(
                c[i],
                stage,
                t,
            ),
    decreases n,
{
    if n > 0 {
        lemma_survivor_is_best(c, line, n - 1, stage, t);
        lemma_survivor(c, line, n - 1, stage, t);
    }
}

/// What is accepted: one candidate to a line, in the order of the lines, each
/// out of those that came in, none worth less than another of its line, and
/// none that breaks a clause, unless it is the one on macros. What came in and
/// is not accepted has its line dropped, and no other line is.
pub proof fn lemma_accepted_are_the_best_of_their_lines(
    incoming: Seq<CandidateView>,
    selected: Seq<CandidateView>,
    stage: RetryScopeStage,
    t: SolverTuning,
    accepted: Seq<CandidateView>,
    dropped: Set<usize>,
    hard_blocked: Set<usize>,
)
    requires
        is_outcome(incoming, selected, stage, t, accepted, dropped, hard_blocked),
    ensures
        forall|i: int, j: int|
            0 <= i < j < accepted.len() ==> (#[trigger] accepted[i]).line < (
            #[trigger] accepted[j]).line,
        forall|i: int| 0 <= i < accepted.len() ==> incoming.contains(#[trigger] accepted[i]),
        forall|i: int, k: int|
            0 <= i < accepted.len() && 0 <= k < incoming.len() && (#[trigger] incoming[k]).line == (
            #[trigger] accepted[i]).line ==> utility(incoming[k], stage, t) <= utility(
                accepted[i],
                stage,
                t,
            ),
        forall|i: int|
            0 <= i < accepted.len() ==> {
                let mask = (#[trigger] accepted[i]).hard_constraints_touched;
                &&& mask & 1 == 0 && mask & 2 == 0 && mask & 4 == 0 && mask & 8 == 0
                &&& mask & 16 == 0 && mask & 64 == 0 && mask & 128 == 0 && mask & 256 == 0
            },
        forall|line: usize| #[trigger]
            dropped.contains(line) <==> (exists|k: int|
                0 <= k < incoming.len() && (#[trigger] incoming[k]).line == line) && !(exists|
                i: int,
            |
                0 <= i < accepted.len() && (#[trigger] accepted[i]).line == line),
        forall|line: usize| #[trigger]
            hard_blocked.contains(line) ==> dropped.contains(line) && exists|k: int|
                0 <= k < incoming.len() && (#[trigger] incoming[k]).line == line
                    && incoming[k].hard_constraints_touched != 0,
{
    let kept = consolidated(incoming, stage, t);
    let nodes = contenders(kept, selected, t);
    let chosen = choose|chosen: Seq<bool>|
        #[trigger] is_selection(nodes, chosen, stage, t) && accepted == picked(nodes, chosen);
    lemma_consolidated_lines(incoming, stage, t);
    lemma_contenders(kept, selected, t);
    lemma_picked(nodes, chosen);
    lemma_picked_lines(nodes, chosen);
    lemma_accepted_compatible(incoming, selected, stage, t, accepted, dropped, hard_blocked);
    let order = lines::listing(line_set(incoming));
    assert forall|i: int, j: int| 0 <= i < j < accepted.len() implies (#[trigger] accepted[i]).line
        < (#[trigger] accepted[j]).line by {
        assert(node_lines(accepted)[i] < node_lines(accepted)[j]);
    }
    assert forall|k: int| 0 <= k < kept.len() implies (#[trigger] kept[k]).line == order[k]
        && survivor(incoming, order[k], incoming.len() as int, stage, t) is Some && kept[k]
        == incoming[survivor(incoming, order[k], incoming.len() as int, stage, t)->0] by {
        assert(node_lines(kept)[k] == order[k]);
        lemma_in_line_set(incoming, kept[k].line);
        assert(incoming.contains(kept[k]));
        let m = choose|m: int| 0 <= m < incoming.len() && incoming[m] == kept[k];
        assert(incoming[m].line == order[k]);
        lemma_survivor(incoming, order[k], incoming.len() as int, stage, t);
    }
    assert forall|i: int, k: int|
        0 <= i < accepted.len() && 0 <= k < incoming.len() && (#[trigger] incoming[k]).line == (
        #[trigger] accepted[i]).line implies utility(incoming[k], stage, t) <= utility(
        accepted[i],
        stage,
        t,
    ) by {
        assert(is_chosen(nodes, chosen, accepted[i]));
        let m = choose|m: int|
            0 <= m < nodes.len() && chosen[m] && #[trigger] nodes[m] == accepted[i];
        assert(kept.contains(nodes[m]));
        let q = choose|q: int| 0 <= q < kept.len() && kept[q] == nodes[m];
        lemma_survivor_is_best(incoming, order[q], incoming.len() as int, stage, t);
        assert(kept[q].line == order[q]);
    }
    assert forall|i: int| 0 <= i < accepted.len() implies {
        let mask = (#[trigger] accepted[i]).hard_constraints_touched;
        &&& mask & 1 == 0 && mask & 2 == 0 && mask & 4 == 0 && mask & 8 == 0
        &&& mask & 16 == 0 && mask & 64 == 0 && mask & 128 == 0 && mask & 256 == 0
    } by {
        lemma_soft_mask(accepted[i].hard_constraints_touched);
    }
    assert forall|line: usize| #[trigger] dropped.contains(line) <==> (exists|k: int|
        0 <= k < incoming.len() && (#[trigger] incoming[k]).line == line) && !(exists|i: int|
        0 <= i < accepted.len() && (#[trigger] accepted[i]).line == line) by {
        lemma_in_line_set(incoming, line);
        lemma_in_line_set(kept, line);
        lemma_in_line_set(accepted, line);
        lemma_kept_lines(incoming, line, stage, t);
    }
    assert forall|line: usize| #[trigger] hard_blocked.contains(line) implies dropped.contains(line)
        && exists|k: int|
        0 <= k < incoming.len() && (#[trigger] incoming[k]).line == line
            && incoming[k].hard_constraints_touched != 0 by {
        let q = choose|q: int|
            0 <= q < kept.len() && (#[trigger] kept[q]).line == line && clause::touches_hard_clause(
                kept[q].hard_constraints_touched,
            );
        assert(incoming.contains(kept[q]));
        let k = choose|k: int| 0 <= k < incoming.len() && incoming[k] == kept[q];
        lemma_empty_mask(incoming[k].hard_constraints_touched);
        assert(incoming[k].line == line && incoming[k].hard_constraints_touched != 0);
        lemma_in_line_set(kept, line);
        lemma_in_line_set(accepted, line);
        if exists|i: int| 0 <= i < accepted.len() && (#[trigger] accepted[i]).line == line {
            let i = choose|i: int| 0 <= i < accepted.len() && (#[trigger] accepted[i]).line == line;
            assert(is_chosen(nodes, chosen, accepted[i]));
        let m = choose|m: int|
            0 <= m < nodes.len() && chosen[m] && #[trigger] nodes[m] == accepted[i];
            assert(kept.contains(nodes[m]));
            let p = choose|p: int| 0 <= p < kept.len() && kept[p] == nodes[m];
            assert(node_lines(kept)[p] == node_lines(kept)[q]);
            if p < q {
                assert(node_lines(kept)[p] < node_lines(kept)[q]);
            } else if q < p {
                assert(node_lines(kept)[q] < node_lines(kept)[p]);
            }
            assert(false);
        }
    }
}

proof fn lemma_soft_mask(mask: u16)
    requires
        !clause::touches_hard_clause(mask),
    ensures
        mask & 1 == 0 && mask & 2 == 0 && mask & 4 == 0 && mask & 8 == 0,
        mask & 16 == 0 && mask & 64 == 0 && mask & 128 == 0 && mask & 256 == 0,
{
    assert(mask & SemanticInvariantClause::ParserAvailability.mask() == 0);
    assert(mask & SemanticInvariantClause::ParseQuality.mask() == 0);
    assert(mask & SemanticInvariantClause::SymbolIdentity.mask() == 0);
    assert(mask & SemanticInvariantClause::ScopeIntegrity.mask() == 0);
    assert(mask & SemanticInvariantClause::UsageRoleConsistency.mask() == 0);
    assert(mask & SemanticInvariantClause::TouchContract.mask() == 0);
    assert(mask & SemanticInvariantClause::DeclarationReferenceIntegrity.mask() == 0);
    assert(mask & SemanticInvariantClause::EditSafety.mask() == 0);
}

proof fn lemma_empty_mask(mask: u16)
    requires
        clause::touches_hard_clause(mask),
    ensures
        mask != 0,
{
    if mask == 0 {
        assert forall|one: SemanticInvariantClause| mask & #[trigger] one.mask() == 0 by {
            let bit = one.mask();
            assert(0u16 & bit == 0) by (bit_vector);
        }
    }
}

proof fn lemma_in_line_set(c: Seq<CandidateView>, line: usize)
    ensures
        line_set(c).contains(line) <==> exists|k: int|
            0 <= k < c.len() && (#[trigger] c[k]).line == line,
{
    let all = c.map_values(|x: CandidateView| x.line);
    if line_set(c).contains(line) {
        let k = choose|k: int| 0 <= k < all.len() && all[k] == line;
        assert(c[k].line == line);
    }
    if exists|k: int| 0 <= k < c.len() && (#[trigger] c[k]).line == line {
        let k = choose|k: int| 0 <= k < c.len() && (#[trigger] c[k]).line == line;
        assert(all[k] == line);
    }
}

proof fn lemma_kept_lines(
    c: Seq<CandidateView>,
    line: usize,
    stage: RetryScopeStage,
    t: SolverTuning,
)
    ensures
        line_set(consolidated(c, stage, t)).contains(line) == line_set(c).contains(line),
{
    let kept = consolidated(c, stage, t);
    lemma_consolidated_lines(c, stage, t);
    let all = c.map_values(|x: CandidateView| x.line);
    vstd::seq_lib::seq_to_set_is_finite(all);
    lines::lemma_listing_exists(line_set(c));
    let order = lines::listing(line_set(c));
    assert(kept.map_values(|x: CandidateView| x.line) =~= order);
}

proof fn lemma_stays_contender(
    kept: Seq<CandidateView>,
    selected: Seq<CandidateView>,
    t: SolverTuning,
    q: int,
)
    requires
        0 <= q < kept.len(),
        !clause::touches_hard_clause(kept[q].hard_constraints_touched),
        !conflicts_any(kept[q], selected, t),
    ensures
        contenders(kept, selected, t).contains(kept[q]),
    decreases kept.len(),
{
    let head = kept.drop_last();
    let rest = contenders(head, selected, t);
    let now = contenders(kept, selected, t);
    if q < head.len() {
        lemma_stays_contender(head, selected, t, q);
        assert(head[q] == kept[q]);
        let k = choose|k: int| 0 <= k < rest.len() && rest[k] == kept[q];
        assert(now[k] == kept[q]);
    } else {
        assert(now[rest.len() as int] == kept[q]);
    }
}

proof fn lemma_lone_candidate_contends(
    incoming: Seq<CandidateView>,
    selected: Seq<CandidateView>,
    stage: RetryScopeStage,
    t: SolverTuning,
    x: CandidateView,
)
    requires
        incoming.contains(x),
        forall|k: int|
            0 <= k < incoming.len() && (#[trigger] incoming[k]).line == x.line ==> incoming[k] == x,
        x.hard_constraints_touched == 0,
        forall|j: int| 0 <= j < selected.len() ==> !conflict(x, #[trigger] selected[j], t),
    ensures
        contenders(consolidated(incoming, stage, t), selected, t).contains(x),
{
    let kept = consolidated(incoming, stage, t);
    lemma_in_line_set(incoming, x.line);
    let m = choose|m: int| 0 <= m < incoming.len() && incoming[m] == x;
    assert(incoming[m].line == x.line);
    lemma_kept_lines(incoming, x.line, stage, t);
    lemma_in_line_set(kept, x.line);
    let q = choose|q: int| 0 <= q < kept.len() && (#[trigger] kept[q]).line == x.line;
    lemma_consolidated_lines(incoming, stage, t);
    assert(incoming.contains(kept[q]));
    let k = choose|k: int| 0 <= k < incoming.len() && incoming[k] == kept[q];
    assert(incoming[k].line == x.line);
    assert(kept[q] == x);
    if clause::touches_hard_clause(x.hard_constraints_touched) {
        lemma_empty_mask(x.hard_constraints_touched);
    }
    lemma_stays_contender(kept, selected, t, q);
}

/// Whether a candidate is out of the way of another: one of them may share
/// lines with other policies; or both are of one policy and on different lines;
/// or they are on different lines, no range of one shares a line with one of
/// the other, a symbol that both touch is no nearer than it may be, and neither
/// is a directive near which the other writes something else.
pub open spec fn is_clear_of(a: CandidateView, b: CandidateView, t: SolverTuning) -> bool {
    let beyond = |n: usize| a.line > b.line + n || b.line > a.line + n;
    let rewrites = catalog::named_capabilities(a.policy).semantic_rewrite
        || catalog::named_capabilities(b.policy).semantic_rewrite || a.risk_tier
        == CandidateRiskTier::High || b.risk_tier == CandidateRiskTier::High;
    ||| a.policy != b.policy && (catalog::named_behavior(a.policy).bypasses_line_conflict
        || catalog::named_behavior(b.policy).bypasses_line_conflict)
    ||| a.policy == b.policy && a.line != b.line
    ||| {
        &&& a.line != b.line
        &&& forall|i: int, j: int|
            0 <= i < a.range_footprint.len() && 0 <= j < b.range_footprint.len() ==> (
            #[trigger] a.range_footprint[i]).1 < (#[trigger] b.range_footprint[j]).0
                || b.range_footprint[j].1 < a.range_footprint[i].0
        &&& forall|symbol: u64| #[trigger]
            a.symbol_footprint.contains(symbol) && b.symbol_footprint.contains(symbol) ==> beyond(
                a.impact_radius,
            ) && beyond(b.impact_radius) && (if rewrites {
                beyond(t.fuzzy_min_semantic)
            } else {
                beyond(t.fuzzy_min_other)
            })
        &&& (a.zone == PolicyZone::Preprocessor || b.zone == PolicyZone::Preprocessor)
            && a.after_fingerprint != b.after_fingerprint ==> beyond(a.impact_radius) && beyond(
            b.impact_radius,
        )
    }
}

/// Nothing is dropped without a cause: a candidate that is alone on its line,
/// breaks no clause, is worth something, and is clear of all that is accepted
/// and of all that was selected before, is accepted.
pub proof fn lemma_clear_candidates_are_accepted(
    incoming: Seq<CandidateView>,
    selected: Seq<CandidateView>,
    stage: RetryScopeStage,
    t: SolverTuning,
    accepted: Seq<CandidateView>,
    dropped: Set<usize>,
    hard_blocked: Set<usize>,
    x: CandidateView,
)
    requires
        incoming.len() <= usize::MAX,
        is_outcome(incoming, selected, stage, t, accepted, dropped, hard_blocked),
        incoming.contains(x),
        forall|k: int|
            0 <= k < incoming.len() && (#[trigger] incoming[k]).line == x.line ==> incoming[k] == x,
        x.hard_constraints_touched == 0,
        0 < utility(x, stage, t) < WEIGHT_LIMIT,
        forall|j: int| 0 <= j < selected.len() ==> is_clear_of(x, #[trigger] selected[j], t),
        forall|i: int|
            0 <= i < accepted.len() ==> #[trigger] accepted[i] == x || is_clear_of(x, accepted[i], t),
    ensures
        accepted.contains(x),
{
    assert forall|j: int| 0 <= j < selected.len() implies !conflict(x, #[trigger] selected[j], t) by {
        assert(is_clear_of(x, selected[j], t));
        lemma_clear(x, selected[j], t);
    }
    assert forall|i: int|
        0 <= i < accepted.len() && accepted[i] != x implies !conflict(
        x,
        #[trigger] accepted[i],
        t,
    ) by {
        assert(is_clear_of(x, accepted[i], t));
        lemma_clear(x, accepted[i], t);
    }
    lemma_better_candidates_win(
        incoming,
        selected,
        stage,
        t,
        accepted,
        dropped,
        hard_blocked,
        x,
        None,
    );
}

proof fn lemma_clear(a: CandidateView, b: CandidateView, t: SolverTuning)
    requires
        is_clear_of(a, b, t),
    ensures
        !conflict(a, b, t),
{
}

proof fn lemma_with_one(
    g: conflict_graph::Graph,
    part: Seq<usize>,
    d: Seq<bool>,
    a: int,
    y: Option<int>,
)
    requires
        conflict_search::admissible(g, part, d),
        0 <= a < d.len() <= usize::MAX,
        !d[a],
        part.contains(a as usize),
        y matches Some(b) ==> 0 <= b < d.len() && d[b] && b != a,
        forall|k: int|
            0 <= k < d.len() && #[trigger] d[k] && Some(k) != y ==> !conflict_graph::adjacent(
                g,
                a,
                k,
            ) && !conflict_graph::adjacent(g, k, a),
    ensures
        ({
            let more = d.update(a, true);
            let e = match y {
                Some(b) => more.update(b, false),
                None => more,
            };
            conflict_search::admissible(g, part, e)
        }),
{
    let more = d.update(a, true);
    let e = match y {
        Some(b) => more.update(b, false),
        None => more,
    };
    assert forall|i: int, j: int|
        0 <= i < e.len() && 0 <= j < e.len() && i != j && #[trigger] e[i]
            && #[trigger] e[j] implies !conflict_graph::adjacent(g, i, j) by {
        if i == a {
            assert(d[j]);
        } else if j == a {
            assert(d[i]);
        } else {
            assert(d[i] && d[j]);
        }
    }
    assert forall|i: int| 0 <= i < e.len() && #[trigger] e[i] implies part.contains(
        i as usize,
    ) by {
        if i != a {
            assert(d[i]);
        }
    }
}

/// The better of two wins: a candidate that is alone on its line, breaks no
/// clause, conflicts with nothing selected before, is worth something, and
/// conflicts with at most one of those that are accepted, is itself accepted,
/// unless that one is worth as much.
pub proof fn lemma_better_candidates_win(
    incoming: Seq<CandidateView>,
    selected: Seq<CandidateView>,
    stage: RetryScopeStage,
    t: SolverTuning,
    accepted: Seq<CandidateView>,
    dropped: Set<usize>,
    hard_blocked: Set<usize>,
    x: CandidateView,
    y: Option<CandidateView>,
)
    requires
        incoming.len() <= usize::MAX,
        is_outcome(incoming, selected, stage, t, accepted, dropped, hard_blocked),
        incoming.contains(x),
        forall|k: int|
            0 <= k < incoming.len() && (#[trigger] incoming[k]).line == x.line ==> incoming[k] == x,
        x.hard_constraints_touched == 0,
        0 < utility(x, stage, t) < WEIGHT_LIMIT,
        forall|j: int| 0 <= j < selected.len() ==> !conflict(x, #[trigger] selected[j], t),
        forall|i: int|
            0 <= i < accepted.len() && #[trigger] accepted[i] != x && Some(accepted[i]) != y
                ==> !conflict(x, accepted[i], t),
        y matches Some(z) ==> utility(z, stage, t) < utility(x, stage, t) && -WEIGHT_LIMIT
            < utility(z, stage, t),
    ensures
        accepted.contains(x),
{
    let kept = consolidated(incoming, stage, t);
    let nodes = contenders(kept, selected, t);
    let g = conflicts_among(nodes, t);
    let chosen = choose|chosen: Seq<bool>|
        #[trigger] is_selection(nodes, chosen, stage, t) && accepted == picked(nodes, chosen);
    lemma_consolidated_lines(incoming, stage, t);
    lemma_contenders(kept, selected, t);
    lemma_picked(nodes, chosen);
    lemma_lone_candidate_contends(incoming, selected, stage, t, x);
    let a = choose|a: int| 0 <= a < nodes.len() && nodes[a] == x;
    if chosen[a] {
        assert(picked(nodes, chosen).contains(nodes[a]));
    } else {
        lemma_few_contenders(incoming, selected, stage, t);
        assert forall|p: int, q: int| #[trigger]
            conflict_graph::adjacent(g, p, q) implies conflict_graph::adjacent(g, q, p) by {
            lemma_conflict_symmetric(nodes[p], nodes[q], t);
        }
        let part = conflict_graph::lemma_component_of(g, a);
        assert(settles(nodes, chosen, part, stage, t));
        assert forall|k: int|
            0 <= k < nodes.len() && #[trigger] chosen[k] && conflict(nodes[a], nodes[k], t)
            implies Some(nodes[k]) == y by {
            assert(k != a);
            assert(accepted.contains(nodes[k]));
            let i = choose|i: int| 0 <= i < accepted.len() && accepted[i] == nodes[k];
            if accepted[i] == x {
                assert(node_lines(nodes)[k] == node_lines(nodes)[a]);
                if k < a {
                    assert(node_lines(nodes)[k] < node_lines(nodes)[a]);
                } else {
                    assert(node_lines(nodes)[a] < node_lines(nodes)[k]);
                }
            }
        }
        if part.len() <= t.component_threshold {
            lemma_no_better_exchange(nodes, chosen, part, a, y, stage, t);
        } else {
            assert(chosen[a] <==> !outranked(nodes, chosen, part, a, stage, t));
            let j = choose|j: int|
                0 <= j < nodes.len() && part.contains(j as usize) && #[trigger] chosen[j] && j != a
                    && conflict(nodes[a], nodes[j], t) && precedes(nodes[j], nodes[a], stage, t);
            assert(Some(nodes[j]) == y);
        }
        assert(false);
    }
}

proof fn lemma_few_contenders(
    incoming: Seq<CandidateView>,
    selected: Seq<CandidateView>,
    stage: RetryScopeStage,
    t: SolverTuning,
)
    requires
        incoming.len() <= usize::MAX,
    ensures
        contenders(consolidated(incoming, stage, t), selected, t).len() <= usize::MAX,
{
    let kept = consolidated(incoming, stage, t);
    let all = incoming.map_values(|x: CandidateView| x.line);
    vstd::seq_lib::seq_to_set_is_finite(all);
    lines::lemma_listing_exists(line_set(incoming));
    let order = lines::listing(line_set(incoming));
    assert(order.no_duplicates()) by {
        assert forall|i: int, j: int|
            0 <= i < order.len() && 0 <= j < order.len() && i != j implies order[i] != order[j] by {
            if i < j {
                assert(order[i] < order[j]);
            } else {
                assert(order[j] < order[i]);
            }
        }
    }
    order.unique_seq_to_set();
    all.lemma_cardinality_of_set();
    lemma_contenders_len(kept, selected, t);
}

proof fn lemma_contenders_len(
    kept: Seq<CandidateView>,
    selected: Seq<CandidateView>,
    t: SolverTuning,
)
    ensures
        contenders(kept, selected, t).len() <= kept.len(),
    decreases kept.len(),
{
    if kept.len() > 0 {
        lemma_contenders_len(kept.drop_last(), selected, t);
    }
}

proof fn lemma_no_better_exchange(
    nodes: Seq<CandidateView>,
    chosen: Seq<bool>,
    part: Seq<usize>,
    a: int,
    y: Option<CandidateView>,
    stage: RetryScopeStage,
    t: SolverTuning,
)
    requires
        nodes.len() <= usize::MAX,
        chosen.len() == nodes.len(),
        lines::increasing(node_lines(nodes)),
        settles(nodes, chosen, part, stage, t),
        part.len() <= t.component_threshold,
        0 <= a < nodes.len(),
        part.contains(a as usize),
        0 < utility(nodes[a], stage, t) < WEIGHT_LIMIT,
        y matches Some(z) ==> utility(z, stage, t) < utility(nodes[a], stage, t) && -WEIGHT_LIMIT
            < utility(z, stage, t),
        forall|k: int|
            0 <= k < nodes.len() && #[trigger] chosen[k] && conflict(nodes[a], nodes[k], t)
                ==> Some(nodes[k]) == y,
    ensures
        chosen[a],
{
    let g = conflicts_among(nodes, t);
    let w = weights_of(nodes, stage, t);
    let d = restricted(chosen, part);
    if !chosen[a] {
        let b: Option<int> = if exists|k: int|
            0 <= k < nodes.len() && #[trigger] d[k] && Some(nodes[k]) == y {
            Some(
                choose|k: int| 0 <= k < nodes.len() && #[trigger] d[k] && Some(nodes[k]) == y,
            )
        } else {
            None
        };
        assert forall|k: int| 0 <= k < d.len() && #[trigger] d[k] && Some(k) != b implies !(
        conflict_graph::adjacent(g, a, k)) && !conflict_graph::adjacent(g, k, a) by {
            assert(chosen[k]);
            lemma_conflict_symmetric(nodes[a], nodes[k], t);
            if conflict(nodes[a], nodes[k], t) {
                assert(Some(nodes[k]) == y);
                assert(d[k] && Some(nodes[k]) == y);
                let m = b->0;
                assert(nodes[m] == nodes[k]);
                assert(node_lines(nodes)[m] == node_lines(nodes)[k]);
                if m < k {
                    assert(node_lines(nodes)[m] < node_lines(nodes)[k]);
                } else if k < m {
                    assert(node_lines(nodes)[k] < node_lines(nodes)[m]);
                }
            }
        }
        lemma_with_one(g, part, d, a, b);
        let more = d.update(a, true);
        conflict_search::lemma_weight_update(d, w, a);
        match b {
            Some(m) => {
                let e = more.update(m, false);
                conflict_search::lemma_weight_update(e, w, m);
                assert(e.update(m, true) =~= more);
                assert(conflict_search::weight(e, w) > conflict_search::weight(d, w));
                assert(conflict_search::better(e, d, w, node_lines(nodes)));
            },
            None => {
                assert(conflict_search::weight(more, w) > conflict_search::weight(d, w));
                assert(conflict_search::better(more, d, w, node_lines(nodes)));
            },
        }
    }
}

/// What a candidate is worth: what its style gains and how sure it is, more
/// where it is not risky, less by what it touches, and less by its risk. A
/// footprint costs no more than three tenths.
pub proof fn lemma_worth_of_a_candidate(c: CandidateView, t: SolverTuning)
    ensures
        ({
            let own = c.style_gain + c.confidence;
            let touched = c.range_footprint.len() * t.range_weight + c.symbol_footprint.len()
                * t.symbol_weight;
            let worth = utility(c, RetryScopeStage::Full, t);
            let base = match c.risk_tier {
                CandidateRiskTier::Low => own + t.stabilizer_bonus_low,
                CandidateRiskTier::Medium => own + t.stabilizer_bonus_medium
                    - t.risk_penalty_medium,
                CandidateRiskTier::High => own - t.risk_penalty_high,
            };
            &&& touched <= 300_000_000 ==> worth == base - touched
            &&& touched >= 300_000_000 ==> worth == base - 300_000_000
        }),
        ({
            let bonus = if c.risk_tier == CandidateRiskTier::Low {
                t.scope_bonus_low as int
            } else {
                t.scope_bonus_other as int
            };
            let worth = utility(c, RetryScopeStage::Full, t);
            &&& utility(c, RetryScopeStage::NodeLocal, t) == worth + bonus
            &&& utility(c, RetryScopeStage::LineLocal, t) == worth + bonus
            &&& utility(c, RetryScopeStage::CulpritRegion, t) == worth + bonus / 2
        }),
{
}

/// Of two candidates for one line, the one that is worth more stays; of two
/// that are worth the same and equally sure, the less risky.
pub proof fn lemma_one_candidate_to_a_line(
    a: CandidateView,
    b: CandidateView,
    stage: RetryScopeStage,
    t: SolverTuning,
)
    requires
        a.line == b.line,
    ensures
        ({
            let kept = consolidated(seq![a, b], stage, t);
            let x = utility(a, stage, t);
            let y = utility(b, stage, t);
            &&& x > y ==> kept == seq![a]
            &&& y > x ==> kept == seq![b]
            &&& x == y && a.confidence == b.confidence && a.risk_tier == CandidateRiskTier::High
                && b.risk_tier == CandidateRiskTier::Low ==> kept == seq![b]
            &&& x == y && a.confidence == b.confidence && a.risk_tier == b.risk_tier ==> kept
                == seq![a]
            &&& x == y && b.confidence > a.confidence + 1_000_000 ==> kept == seq![b]
            &&& x == y && a.confidence > b.confidence + 1_000_000 ==> kept == seq![a]
        }),
{
    let c = seq![a, b];
    let all = c.map_values(|x: CandidateView| x.line);
    let one = seq![a.line];
    assert(all =~= seq![a.line, a.line]);
    assert forall|line: usize| line_set(c).contains(line) <==> one.to_set().contains(line) by {
        assert(all[0] == a.line && one[0] == a.line);
    }
    assert(one.to_set() =~= line_set(c));
    lines::lemma_listing_unique(one, line_set(c));
    assert(c[0] == a && c[1] == b);
    assert(survivor(c, a.line, 0, stage, t) is None);
    assert(survivor(c, a.line, 1, stage, t) == Some(0int));
    let kept = consolidated(c, stage, t);
    assert(kept.len() == 1);
    let s = survivor(c, a.line, 2, stage, t);
    assert(s == if displaces(b, a, stage, t) {
        Some(1int)
    } else {
        Some(0int)
    });
    assert(kept =~= seq![c[s->0]]);
}

/// Of two that are worth the same the earlier line wins: a candidate that is
/// alone on its line, breaks no clause, conflicts with nothing selected before
/// and, of those that are accepted, with at most one, is itself accepted if that
/// one is worth the same, is as sure and as risky, and is further down.
pub proof fn lemma_earlier_line_wins(
    incoming: Seq<CandidateView>,
    selected: Seq<CandidateView>,
    stage: RetryScopeStage,
    t: SolverTuning,
    accepted: Seq<CandidateView>,
    dropped: Set<usize>,
    hard_blocked: Set<usize>,
    x: CandidateView,
    y: CandidateView,
)
    requires
        incoming.len() <= usize::MAX,
        is_outcome(incoming, selected, stage, t, accepted, dropped, hard_blocked),
        incoming.contains(x),
        forall|k: int|
            0 <= k < incoming.len() && (#[trigger] incoming[k]).line == x.line ==> incoming[k] == x,
        x.hard_constraints_touched == 0,
        0 < utility(x, stage, t) < WEIGHT_LIMIT,
        forall|j: int| 0 <= j < selected.len() ==> !conflict(x, #[trigger] selected[j], t),
        forall|i: int|
            0 <= i < accepted.len() && #[trigger] accepted[i] != x && accepted[i] != y ==> !conflict(
                x,
                accepted[i],
                t,
            ),
        utility(y, stage, t) == utility(x, stage, t),
        y.confidence == x.confidence,
        y.risk_tier == x.risk_tier,
        x.line < y.line,
    ensures
        accepted.contains(x),
{
    let kept = consolidated(incoming, stage, t);
    let nodes = contenders(kept, selected, t);
    let g = conflicts_among(nodes, t);
    let chosen = choose|chosen: Seq<bool>|
        #[trigger] is_selection(nodes, chosen, stage, t) && accepted == picked(nodes, chosen);
    lemma_consolidated_lines(incoming, stage, t);
    lemma_contenders(kept, selected, t);
    lemma_picked(nodes, chosen);
    lemma_lone_candidate_contends(incoming, selected, stage, t, x);
    let a = choose|a: int| 0 <= a < nodes.len() && nodes[a] == x;
    if chosen[a] {
        assert(picked(nodes, chosen).contains(nodes[a]));
    } else {
        lemma_few_contenders(incoming, selected, stage, t);
        assert forall|p: int, q: int| #[trigger]
            conflict_graph::adjacent(g, p, q) implies conflict_graph::adjacent(g, q, p) by {
            lemma_conflict_symmetric(nodes[p], nodes[q], t);
        }
        let part = conflict_graph::lemma_component_of(g, a);
        assert(settles(nodes, chosen, part, stage, t));
        assert forall|k: int|
            0 <= k < nodes.len() && #[trigger] chosen[k] && conflict(
                nodes[a],
                nodes[k],
                t,
            ) implies nodes[k] == y by {
            assert(accepted.contains(nodes[k]));
            let i = choose|i: int| 0 <= i < accepted.len() && accepted[i] == nodes[k];
            if accepted[i] == x {
                assert(node_lines(nodes)[k] == node_lines(nodes)[a]);
                if k < a {
                    assert(node_lines(nodes)[k] < node_lines(nodes)[a]);
                } else {
                    assert(node_lines(nodes)[a] < node_lines(nodes)[k]);
                }
            }
        }
        if part.len() <= t.component_threshold {
            lemma_no_equal_exchange(nodes, chosen, part, a, y, stage, t);
        } else {
            assert(chosen[a] <==> !outranked(nodes, chosen, part, a, stage, t));
            let j = choose|j: int|
                0 <= j < nodes.len() && part.contains(j as usize) && #[trigger] chosen[j] && j != a
                    && conflict(nodes[a], nodes[j], t) && precedes(nodes[j], nodes[a], stage, t);
            assert(nodes[j] == y);
        }
        assert(false);
    }
}

proof fn lemma_no_equal_exchange(
    nodes: Seq<CandidateView>,
    chosen: Seq<bool>,
    part: Seq<usize>,
    a: int,
    y: CandidateView,
    stage: RetryScopeStage,
    t: SolverTuning,
)
    requires
        nodes.len() <= usize::MAX,
        chosen.len() == nodes.len(),
        lines::increasing(node_lines(nodes)),
        settles(nodes, chosen, part, stage, t),
        part.len() <= t.component_threshold,
        0 <= a < nodes.len(),
        part.contains(a as usize),
        0 < utility(nodes[a], stage, t) < WEIGHT_LIMIT,
        utility(y, stage, t) == utility(nodes[a], stage, t),
        nodes[a].line < y.line,
        forall|k: int|
            0 <= k < nodes.len() && #[trigger] chosen[k] && conflict(nodes[a], nodes[k], t)
                ==> nodes[k] == y,
    ensures
        chosen[a],
{
    let d = restricted(chosen, part);
    if !chosen[a] {
        if exists|k: int| 0 <= k < nodes.len() && #[trigger] d[k] && nodes[k] == y {
            let m = choose|k: int| 0 <= k < nodes.len() && #[trigger] d[k] && nodes[k] == y;
            let g = conflicts_among(nodes, t);
            let w = weights_of(nodes, stage, t);
            let places = node_lines(nodes);
            assert forall|k: int| 0 <= k < d.len() && #[trigger] d[k] && Some(k) != Some(
                m,
            ) implies !conflict_graph::adjacent(g, a, k) && !conflict_graph::adjacent(g, k, a) by {
                assert(chosen[k]);
                lemma_conflict_symmetric(nodes[a], nodes[k], t);
                if conflict(nodes[a], nodes[k], t) {
                    assert(places[m] == places[k]);
                    if m < k {
                        assert(places[m] < places[k]);
                    } else if k < m {
                        assert(places[k] < places[m]);
                    }
                }
            }
            lemma_with_one(g, part, d, a, Some(m));
            let more = d.update(a, true);
            let e = more.update(m, false);
            conflict_search::lemma_weight_update(d, w, a);
            conflict_search::lemma_weight_update(e, w, m);
            assert(e.update(m, true) =~= more);
            assert(conflict_search::weight(e, w) == conflict_search::weight(d, w));
            let s = conflict_search::chosen_lines(d, places);
            let r = conflict_search::chosen_lines(e, places);
            let all = places.to_set();
            vstd::seq_lib::seq_to_set_is_finite(places);
            assert forall|line: usize| s.contains(line) implies all.contains(line) by {
                let k = choose|k: int| 0 <= k < d.len() && #[trigger] d[k] && places[k] == line;
                assert(places[k] == line);
            }
            assert(s.subset_of(all));
            vstd::set_lib::lemma_len_subset(s, all);
            assert(s.contains(places[m]));
            assert(!s.contains(places[a])) by {
                if s.contains(places[a]) {
                    let k = choose|k: int|
                        0 <= k < d.len() && #[trigger] d[k] && places[k] == places[a];
                    lemma_one_place(nodes, k, a);
                }
            }
            assert forall|line: usize| r.contains(line) <==> s.remove(places[m]).insert(
                places[a],
            ).contains(line) by {
                if r.contains(line) {
                    let k = choose|k: int| 0 <= k < e.len() && #[trigger] e[k] && places[k] == line;
                    if k != a {
                        assert(d[k]);
                        if line == places[m] {
                            lemma_one_place(nodes, k, m);
                        }
                    }
                }
                if s.remove(places[m]).contains(line) {
                    let k = choose|k: int| 0 <= k < d.len() && #[trigger] d[k] && places[k] == line;
                    assert(e[k]);
                }
                if line == places[a] {
                    assert(e[a]);
                }
            }
            assert(r =~= s.remove(places[m]).insert(places[a]));
            conflict_search::lemma_smaller_element_comes_first(s, places[a], places[m]);
            assert(conflict_search::better(e, d, w, places));
        } else {
            assert forall|k: int|
                0 <= k < nodes.len() && #[trigger] d[k] implies !conflict(nodes[a], nodes[k], t) by {
                assert(chosen[k]);
            }
            let g = conflicts_among(nodes, t);
            let w = weights_of(nodes, stage, t);
            assert forall|k: int| 0 <= k < d.len() && #[trigger] d[k] implies !(
            conflict_graph::adjacent(g, a, k)) && !conflict_graph::adjacent(g, k, a) by {
                lemma_conflict_symmetric(nodes[a], nodes[k], t);
            }
            lemma_with_one(g, part, d, a, None);
            conflict_search::lemma_weight_update(d, w, a);
            assert(conflict_search::better(d.update(a, true), d, w, node_lines(nodes)));
        }
    }
}

proof fn lemma_one_place(nodes: Seq<CandidateView>, a: int, b: int)
    requires
        lines::increasing(node_lines(nodes)),
        0 <= a < nodes.len(),
        0 <= b < nodes.len(),
        node_lines(nodes)[a] == node_lines(nodes)[b],
    ensures
        a == b,
{
    if a < b {
        assert(node_lines(nodes)[a] < node_lines(nodes)[b]);
    } else if b < a {
        assert(node_lines(nodes)[b] < node_lines(nodes)[a]);
    }
}

} // verus!
