//! Turns the edits of a policy into candidates, and holds them to the rules
//! that no choice among them may break.
use std::collections::BTreeSet;
use vstd::prelude::*;

use crate::catalog::PolicyCapabilities;
use crate::conflict_solver;
use crate::conflict_solver::GlobalConflictSolver;
use crate::context_tracker::BlockContextKind;
use crate::convergence::ConvergencePolicySignal;
use crate::edit_candidate::{CandidateView, PolicyEditCandidate};
use crate::file_context::{SemanticRegionKind, SemanticScopeKind};
use crate::fingerprints;
use crate::fingerprints::Fingerprints;
use crate::model;
use crate::model::{Edit, EditView};
use crate::pipeline::impact;
use crate::pipeline::impact::add_number;
use crate::semantic_contract::clause;
use crate::semantic_contract::SemanticInvariantClause;
use crate::text;
use crate::text::{chars_of, decimal_of, trim_bounds};
use crate::zone::PolicyZone;

verus! {

broadcast use {
    vstd::std_specs::btree::group_btree_axioms,
    vstd::laws_cmp::group_laws_cmp,
};

/// One, in billionths.
pub const FULL_SCORE: i64 = 1_000_000_000;

/// The difference in length from which on a change is not a small one.
pub const STYLE_DELTA_CAP: usize = 32;

/// The symbol at an edited line.
#[derive(Debug)]
pub struct SymbolEvidence {
    pub stable_id: String,
    /// Whether its declaration is known.
    pub declared: bool,
    /// The line and column of each use.
    pub references: Vec<(usize, usize)>,
}

/// What is known of the place of an edit.
#[derive(Debug)]
pub struct EditEvidence {
    /// The regions on the line.
    pub regions_on_line: Vec<SemanticRegionKind>,
    /// The region, the scope and the block at its first column.
    pub region_at: Option<SemanticRegionKind>,
    pub scope_at: Option<SemanticScopeKind>,
    pub block_at: Option<BlockContextKind>,
    pub in_macro_region: bool,
    pub safe_edit: bool,
    pub symbol: Option<SymbolEvidence>,
}

/// Whether a line lies in a region or scope of the preprocessor: by the regions
/// on it, by the one at its first column, or by the scope there.
pub open spec fn is_preprocessor(
    regions_on_line: Seq<SemanticRegionKind>,
    region_at: Option<SemanticRegionKind>,
    scope_at: Option<SemanticScopeKind>,
) -> bool {
    ||| regions_on_line.contains(SemanticRegionKind::Preprocessor)
    ||| region_at == Some(SemanticRegionKind::Preprocessor)
    ||| scope_at == Some(SemanticScopeKind::Preprocessor)
}

/// Whether a line lies in a region or scope of the preprocessor.
pub fn in_preprocessor(
    regions_on_line: &[SemanticRegionKind],
    region_at: Option<SemanticRegionKind>,
    scope_at: Option<SemanticScopeKind>,
) -> (r: bool)
    ensures
        r == is_preprocessor(regions_on_line@, region_at, scope_at),
{
    let mut i: usize = 0;
    while i < regions_on_line.len()
        invariant
            i <= regions_on_line.len(),
            forall|j: int|
                0 <= j < i ==> regions_on_line@[j] != SemanticRegionKind::Preprocessor,
        decreases regions_on_line.len() - i,
    {
        if regions_on_line[i] == SemanticRegionKind::Preprocessor {
            return true;
        }
        i = i + 1;
    }
    matches!(region_at, Some(SemanticRegionKind::Preprocessor)) || matches!(
        scope_at,
        Some(SemanticScopeKind::Preprocessor)
    )
}

/// The fingerprints of an edit: of the line after it, and of the symbol at it.
#[derive(Debug)]
pub struct EditPrints {
    pub after: u64,
    pub symbols: Vec<u64>,
}

/// A place as text.
pub open spec fn place_text(place: (usize, usize)) -> Seq<char> {
    text::decimal(place.0 as nat) + ":"@ + text::decimal(place.1 as nat)
}

/// The texts of which the fingerprints of a symbol are taken: its identity,
/// where its declaration is known, and the place of each use.
pub open spec fn symbol_texts(e: EditEvidence) -> Seq<Seq<char>> {
    match e.symbol {
        None => Seq::empty(),
        Some(symbol) => {
            let own = if symbol.declared {
                seq![symbol.stable_id@]
            } else {
                Seq::empty()
            };
            own + symbol.references@.map_values(|place: (usize, usize)| place_text(place))
        },
    }
}

/// Whether a table gives the fingerprints of an edit.
pub open spec fn are_prints(
    table: Map<Seq<char>, u64>,
    edit: EditView,
    e: EditEvidence,
    prints: EditPrints,
) -> bool {
    &&& table.dom().contains(edit.after)
    &&& prints.after == table[edit.after]
    &&& fingerprints::are_numbers(table, symbol_texts(e), prints.symbols@)
}

/// Whether a table gives the fingerprints of all edits.
pub open spec fn are_all_prints(
    table: Map<Seq<char>, u64>,
    edits: Seq<EditView>,
    evidence: Seq<EditEvidence>,
    prints: Seq<EditPrints>,
) -> bool {
    prints.len() == evidence.len() && forall|i: int|
        0 <= i < prints.len() ==> are_prints(table, edits[i], evidence[i], #[trigger] prints[i])
}

/// Whether the fingerprints are those of the edits: equal texts have equal
/// fingerprints.
pub open spec fn prints_agree(
    edits: Seq<EditView>,
    evidence: Seq<EditEvidence>,
    prints: Seq<EditPrints>,
) -> bool {
    exists|table: Map<Seq<char>, u64>| #[trigger] are_all_prints(table, edits, evidence, prints)
}

/// What small changes of style are worth, in billionths.
#[derive(Clone, Copy, Debug, PartialEq, Eq, Structural)]
pub struct StyleWeights {
    pub base: i32,
    pub whitespace_bonus: i32,
    pub delta_bonus: i32,
}

/// What proposals depend on besides the edits themselves.
#[derive(Clone, Copy, Debug)]
pub struct ProposalContext<'a> {
    /// Whether the semantics of the file are known.
    pub available: bool,
    pub comment_lines: Option<&'a BTreeSet<usize>>,
    pub convergence_signal: &'a ConvergencePolicySignal,
    pub capability: PolicyCapabilities,
    /// In billionths.
    pub confidence: i64,
    pub confidence_penalty: i64,
    pub trust_deficit_penalty: i64,
    /// How far edits reach in a file as rich as this one.
    pub richness_radius: usize,
    pub style: StyleWeights,
}

/// The zone of a line.
pub open spec fn zone_of(line: usize, e: EditEvidence, comments: Option<Set<usize>>) -> PolicyZone {
    if is_preprocessor(e.regions_on_line@, e.region_at, e.scope_at) || e.in_macro_region {
        PolicyZone::Preprocessor
    } else if comments is Some && comments->Some_0.contains(line) {
        PolicyZone::Comments
    } else {
        PolicyZone::Code
    }
}

/// A mask with the bit of a clause set where it is touched.
pub open spec fn touching(mask: u16, touched: bool, clause: SemanticInvariantClause) -> u16 {
    if touched {
        mask | clause.mask()
    } else {
        mask
    }
}

/// The clauses that an edit touches.
pub open spec fn touched_clauses(
    e: EditEvidence,
    available: bool,
    capability: PolicyCapabilities,
    zone: PolicyZone,
) -> u16 {
    let macros = touching(0, e.in_macro_region, SemanticInvariantClause::MacroRegionSafety);
    let safety = touching(macros, !e.safe_edit, SemanticInvariantClause::EditSafety);
    let parsers = touching(safety, !available, SemanticInvariantClause::ParserAvailability);
    touching(parsers, !capability.allowed_zones.has(zone), SemanticInvariantClause::TouchContract)
}

/// A list of numbers put in order, each once, together with those that are in
/// order already.
pub open spec fn with_numbers(list: Seq<u64>, more: Seq<u64>) -> Seq<u64>
    decreases more.len(),
{
    if more.len() == 0 {
        list
    } else {
        impact::insert_number(with_numbers(list, more.drop_last()), more.last())
    }
}

/// The numbers of the symbols that an edit touches.
pub open spec fn symbols_touched(known: Option<Seq<u64>>, prints: Seq<u64>) -> Seq<u64> {
    match known {
        Some(list) => with_numbers(with_numbers(Seq::empty(), list), prints),
        None => with_numbers(Seq::empty(), prints),
    }
}

/// How sure a candidate is: between zero and one.
pub open spec fn resolved_confidence(confidence: i64, penalty: i64, deficit: i64) -> i64 {
    let left = confidence - penalty - deficit;
    if left < 0 {
        0
    } else if left > FULL_SCORE {
        FULL_SCORE
    } else {
        left as i64
    }
}

/// How many bytes a character takes.
pub open spec fn char_bytes(c: char) -> nat {
    if (c as u32) < 0x80 {
        1
    } else if (c as u32) < 0x800 {
        2
    } else if (c as u32) < 0x10000 {
        3
    } else {
        4
    }
}

/// How many bytes a string takes.
pub open spec fn byte_len(s: Seq<char>) -> nat
    decreases s.len(),
{
    if s.len() == 0 {
        0
    } else {
        byte_len(s.drop_last()) + char_bytes(s.last())
    }
}

/// How far two lengths are apart, up to where it no longer matters.
pub open spec fn style_delta(a: nat, b: nat) -> int {
    let apart = if a < b {
        b - a
    } else {
        a - b
    };
    if apart > STYLE_DELTA_CAP {
        STYLE_DELTA_CAP as int
    } else {
        apart
    }
}

/// What a change of style is worth: more where only outer white space
/// changes, and more the less the length changes.
pub open spec fn style_worth(before: Seq<char>, after: Seq<char>, w: StyleWeights) -> i64 {
    if before == after {
        0
    } else {
        let b = text::trimmed(before);
        let a = text::trimmed(after);
        let white = if a == b {
            w.whitespace_bonus as int
        } else {
            0
        };
        let left = STYLE_DELTA_CAP - style_delta(byte_len(b), byte_len(a));
        (w.base + white + left * w.delta_bonus / STYLE_DELTA_CAP as int) as i64
    }
}

/// The larger of two numbers.
pub open spec fn larger(a: usize, b: usize) -> usize {
    if a < b {
        b
    } else {
        a
    }
}

/// The candidate that an edit becomes.
pub open spec fn candidate_for(
    policy: Seq<char>,
    e: EditView,
    evidence: EditEvidence,
    prints: EditPrints,
    c: ProposalContext,
) -> CandidateView {
    let zone = zone_of(
        e.line,
        evidence,
        match c.comment_lines {
            Some(lines) => Some(lines@),
            None => None,
        },
    );
    let ranges = impact::range_views(c.convergence_signal.impact_ranges@);
    let symbols = impact::symbol_views(c.convergence_signal.symbol_ids@);
    CandidateView {
        policy,
        line: e.line,
        confidence: resolved_confidence(
            c.confidence,
            c.confidence_penalty,
            c.trust_deficit_penalty,
        ),
        style_gain: style_worth(e.before, e.after, c.style),
        risk_tier: c.capability.risk_tier,
        impact_radius: larger(larger(c.convergence_signal.impact_radius, 1), c.richness_radius),
        symbol_footprint: symbols_touched(
            if symbols.dom().contains(e.line) {
                Some(symbols[e.line])
            } else {
                None
            },
            prints.symbols@,
        ),
        range_footprint: if ranges.dom().contains(e.line) {
            ranges[e.line]
        } else {
            seq![(e.line, e.line)]
        },
        hard_constraints_touched: touched_clauses(evidence, c.available, c.capability, zone),
        zone,
        after_fingerprint: prints.after,
    }
}

/// The candidates that the first `n` edits become. An edit that changes
/// nothing becomes none.
pub open spec fn proposed(
    policy: Seq<char>,
    edits: Seq<EditView>,
    evidence: Seq<EditEvidence>,
    prints: Seq<EditPrints>,
    c: ProposalContext,
    n: int,
) -> Seq<CandidateView>
    decreases n,
{
    if n <= 0 {
        Seq::empty()
    } else {
        let rest = proposed(policy, edits, evidence, prints, c, n - 1);
        if edits[n - 1].changes() {
            rest.push(candidate_for(policy, edits[n - 1], evidence[n - 1], prints[n - 1], c))
        } else {
            rest
        }
    }
}

/// The candidates that may go on: their zone is allowed, and they touch no
/// hard clause.
pub open spec fn may_go_on(c: CandidateView, capability: PolicyCapabilities) -> bool {
    capability.allowed_zones.has(c.zone) && !clause::touches_hard_clause(
        c.hard_constraints_touched,
    )
}

/// The candidates of a list that may go on.
pub open spec fn allowed_of(c: Seq<CandidateView>, capability: PolicyCapabilities) -> Seq<
    CandidateView,
>
    decreases c.len(),
{
    if c.len() == 0 {
        Seq::empty()
    } else if may_go_on(c.last(), capability) {
        allowed_of(c.drop_last(), capability).push(c.last())
    } else {
        allowed_of(c.drop_last(), capability)
    }
}

/// The lines of the candidates whose zone is not allowed.
pub open spec fn zone_lines(c: Seq<CandidateView>, capability: PolicyCapabilities) -> Set<usize>
    decreases c.len(),
{
    if c.len() == 0 {
        Set::empty()
    } else if !capability.allowed_zones.has(c.last().zone) {
        zone_lines(c.drop_last(), capability).insert(c.last().line)
    } else {
        zone_lines(c.drop_last(), capability)
    }
}

/// The lines of the candidates that touch a hard clause in an allowed zone.
pub open spec fn clause_lines(c: Seq<CandidateView>, capability: PolicyCapabilities) -> Set<usize>
    decreases c.len(),
{
    if c.len() == 0 {
        Set::empty()
    } else if capability.allowed_zones.has(c.last().zone) && clause::touches_hard_clause(
        c.last().hard_constraints_touched,
    ) {
        clause_lines(c.drop_last(), capability).insert(c.last().line)
    } else {
        clause_lines(c.drop_last(), capability)
    }
}

/// Which candidates may go on, and which lines are held back.
#[derive(Debug)]
pub struct GuardianAssessment {
    pub allowed: Vec<PolicyEditCandidate>,
    pub blocked_zone_lines: BTreeSet<usize>,
    pub hard_blocked_lines: BTreeSet<usize>,
}

/// Makes candidates.
#[derive(Clone, Copy, Debug)]
pub struct ProposerController;

fn bytes_of(chars: &[char]) -> (r: u128)
    ensures
        r == byte_len(chars@),
{
    let mut r: u128 = 0;
    let mut i: usize = 0;
    while i < chars.len()
        invariant
            i <= chars@.len(),
            r == byte_len(chars@.take(i as int)),
            r <= 4 * i,
        decreases chars@.len() - i,
    {
        assert(chars@.take(i + 1).drop_last() =~= chars@.take(i as int));
        assert(chars@.take(i + 1).last() == chars@[i as int]);
        let code: u32 = chars[i] as u32;
        let n: u128 = if code < 0x80 {
            1
        } else if code < 0x800 {
            2
        } else if code < 0x10000 {
            3
        } else {
            4
        };
        r = r + n;
        i += 1;
    }
    assert(chars@.take(chars@.len() as int) =~= chars@);
    r
}

fn same_chars(a: &[char], b: &[char]) -> (r: bool)
    ensures
        r == (a@ == b@),
{
    if a.len() != b.len() {
        return false;
    }
    let mut i: usize = 0;
    while i < a.len()
        invariant
            i <= a@.len() == b@.len(),
            forall|k: int| 0 <= k < i ==> a@[k] == b@[k],
        decreases a@.len() - i,
    {
        if a[i] != b[i] {
            return false;
        }
        i += 1;
    }
    assert(a@ =~= b@);
    true
}

impl ProposerController {
    pub fn new() -> (r: ProposerController) {
        ProposerController
    }

    /// What a change of style is worth.
    pub fn style_gain(before: &str, after: &str, weights: StyleWeights) -> (r: i64)
        ensures
            r == style_worth(before@, after@, weights),
    {
        if text::str_eq(before, after) {
            return 0;
        }
        let left = chars_of(before);
        let right = chars_of(after);
        let (from, to) = trim_bounds(left.as_slice());
        let b = vstd::slice::slice_subrange(left.as_slice(), from, to);
        let (start, end) = trim_bounds(right.as_slice());
        let a = vstd::slice::slice_subrange(right.as_slice(), start, end);
        let white: i64 = if same_chars(a, b) {
            weights.whitespace_bonus as i64
        } else {
            0
        };
        let x = bytes_of(b);
        let y = bytes_of(a);
        let apart: u128 = if x < y {
            y - x
        } else {
            x - y
        };
        let delta: i64 = if apart > STYLE_DELTA_CAP as u128 {
            STYLE_DELTA_CAP as i64
        } else {
            apart as i64
        };
        let rest: i64 = STYLE_DELTA_CAP as i64 - delta;
        assert(-0x10_0000_0000 <= rest * weights.delta_bonus <= 0x10_0000_0000)
            by (nonlinear_arith)
            requires
                0 <= rest <= 32,
                -0x8000_0000 <= weights.delta_bonus <= 0x7fff_ffff,
        ;
        let product: i64 = rest * weights.delta_bonus as i64;
        let share: i64 = Self::floor_share(product);
        weights.base as i64 + white + share
    }

    /// A thirty-second part, rounded down.
    fn floor_share(n: i64) -> (r: i64)
        requires
            -0x10_0000_0000 <= n <= 0x10_0000_0000,
        ensures
            r == n as int / STYLE_DELTA_CAP as int,
            -0x10_0000_0000 <= r <= 0x10_0000_0000,
    {
        if n >= 0 {
            n / 32
        } else {
            let m: i64 = -n;
            let q: i64 = (m + 31) / 32;
            assert(n as int / 32 == -q) by {
                assert(32 * q >= m && 32 * q - m < 32);
            }
            -q
        }
    }

    fn zone_for_line(
        line: usize,
        evidence: &EditEvidence,
        comment_lines: Option<&BTreeSet<usize>>,
    ) -> (r: PolicyZone)
        ensures
            r == zone_of(
                line,
                *evidence,
                match comment_lines {
                    Some(lines) => Some(lines@),
                    None => None,
                },
            ),
    {
        let regions = evidence.regions_on_line.as_slice();
        if in_preprocessor(regions, evidence.region_at, evidence.scope_at)
            || evidence.in_macro_region {
            return PolicyZone::Preprocessor;
        }
        if let Some(lines) = comment_lines {
            if lines.contains(&line) {
                return PolicyZone::Comments;
            }
        }
        PolicyZone::Code
    }

    fn add_numbers(list: &mut Vec<u64>, more: &[u64])
        ensures
            final(list)@ == with_numbers(old(list)@, more@),
    {
        let ghost start = list@;
        let mut i: usize = 0;
        assert(more@.take(0) =~= Seq::empty());
        while i < more.len()
            invariant
                i <= more@.len(),
                list@ == with_numbers(start, more@.take(i as int)),
            decreases more@.len() - i,
        {
            assert(more@.take(i + 1).drop_last() =~= more@.take(i as int));
            assert(more@.take(i + 1).last() == more@[i as int]);
            add_number(list, more[i]);
            i += 1;
        }
        assert(more@.take(more@.len() as int) =~= more@);
    }

    fn candidate(
        policy_name: &str,
        edit: &Edit,
        evidence: &EditEvidence,
        prints: &EditPrints,
        context: &ProposalContext<'_>,
    ) -> (r: PolicyEditCandidate)
        ensures
            r@ == candidate_for(policy_name@, edit@, *evidence, *prints, *context),
    {
        let signal = context.convergence_signal;
        let zone = Self::zone_for_line(edit.line, evidence, context.comment_lines);
        let mut mask: u16 = 0;
        if evidence.in_macro_region {
            mask = mask | SemanticInvariantClause::MacroRegionSafety.bit();
        }
        if !evidence.safe_edit {
            mask = mask | SemanticInvariantClause::EditSafety.bit();
        }
        if !context.available {
            mask = mask | SemanticInvariantClause::ParserAvailability.bit();
        }
        if !context.capability.allows_zone(zone) {
            mask = mask | SemanticInvariantClause::TouchContract.bit();
        }
        let mut symbol_footprint: Vec<u64> = Vec::new();
        if let Some(known) = signal.symbol_ids.get(&edit.line) {
            let known = known.to_vec();
            Self::add_numbers(&mut symbol_footprint, known.as_slice());
        }
        Self::add_numbers(&mut symbol_footprint, prints.symbols.as_slice());
        let range_footprint = match signal.impact_ranges.get(&edit.line) {
            Some(ranges) => ranges.to_vec(),
            None => {
                let mut one: Vec<(usize, usize)> = Vec::new();
                one.push((edit.line, edit.line));
                assert(one@ =~= seq![(edit.line, edit.line)]);
                one
            },
        };
        let left: i128 = context.confidence as i128 - context.confidence_penalty as i128
            - context.trust_deficit_penalty as i128;
        let confidence: i64 = if left < 0 {
            0
        } else if left > FULL_SCORE as i128 {
            FULL_SCORE
        } else {
            left as i64
        };
        let mut impact_radius: usize = signal.impact_radius;
        if impact_radius < 1 {
            impact_radius = 1;
        }
        if impact_radius < context.richness_radius {
            impact_radius = context.richness_radius;
        }
        PolicyEditCandidate {
            policy: policy_name.to_owned(),
            line: edit.line,
            confidence,
            style_gain: Self::style_gain(
                edit.before.as_str(),
                edit.after.as_str(),
                context.style,
            ),
            risk_tier: context.capability.risk_tier,
            impact_radius,
            symbol_footprint,
            range_footprint,
            hard_constraints_touched: mask,
            zone,
            after_fingerprint: prints.after,
        }
    }

    /// Makes candidates of edits, given the fingerprints of each.
    pub fn propose_with_prints(
        &self,
        policy_name: &str,
        edits: &[Edit],
        evidence: &[EditEvidence],
        prints: &[EditPrints],
        context: &ProposalContext<'_>,
    ) -> (r: Vec<PolicyEditCandidate>)
        requires
            evidence@.len() == edits@.len(),
            prints@.len() == edits@.len(),
        ensures
            conflict_solver::views(r@) == proposed(
                policy_name@,
                model::edit_views(edits@),
                evidence@,
                prints@,
                *context,
                edits@.len() as int,
            ),
    {
        let ghost all = model::edit_views(edits@);
        let mut r: Vec<PolicyEditCandidate> = Vec::new();
        let mut i: usize = 0;
        assert(conflict_solver::views(r@) =~= Seq::empty());
        while i < edits.len()
            invariant
                i <= edits@.len(),
                all == model::edit_views(edits@),
                evidence@.len() == edits@.len(),
                prints@.len() == edits@.len(),
                conflict_solver::views(r@) == proposed(
                    policy_name@,
                    all,
                    evidence@,
                    prints@,
                    *context,
                    i as int,
                ),
            decreases edits@.len() - i,
        {
            assert(all[i as int] == edits@[i as int]@);
            if edits[i].is_change() {
                let ghost was = r@;
                let c = Self::candidate(
                    policy_name,
                    &edits[i],
                    &evidence[i],
                    &prints[i],
                    context,
                );
                let ghost view = c@;
                r.push(c);
                assert(conflict_solver::views(r@) =~= conflict_solver::views(was).push(view));
            }
            i += 1;
        }
        r
    }

    /// The fingerprint of a place.
    fn line_column_fingerprint(table: Fingerprints, line: usize, column: usize) -> (r: (
        Fingerprints,
        u64,
    ))
        ensures
            fingerprints::extends(r.0@, table@),
            r.0@.dom().contains(place_text((line, column))),
            r.0@[place_text((line, column))] == r.1,
    {
        let mut place = decimal_of(line);
        place.append(":");
        place.append(decimal_of(column).as_str());
        table.number(place.as_str())
    }

    /// Takes the fingerprints of an edit.
    fn prints_of(table: Fingerprints, edit: &Edit, evidence: &EditEvidence) -> (r: (
        Fingerprints,
        EditPrints,
    ))
        ensures
            fingerprints::extends(r.0@, table@),
            are_prints(r.0@, edit@, *evidence, r.1),
    {
        let ghost start = table@;
        let ghost texts = symbol_texts(*evidence);
        let (mut table, after) = table.number(edit.after.as_str());
        let mut symbols: Vec<u64> = Vec::new();
        if let Some(symbol) = &evidence.symbol {
            let ghost own: int = if symbol.declared {
                1
            } else {
                0
            };
            if symbol.declared {
                let ghost before = table@;
                let (more, n) = table.number(symbol.stable_id.as_str());
                table = more;
                symbols.push(n);
                proof {
                    assert(before.dom().contains(edit.after@));
                    assert(texts[0] == symbol.stable_id@);
                    fingerprints::lemma_next_number(before, table@, texts, Seq::empty(), 0, n);
                    assert(symbols@ =~= Seq::<u64>::empty().push(n));
                }
            }
            let mut i: usize = 0;
            while i < symbol.references.len()
                invariant
                    i <= symbol.references@.len(),
                    0 <= own <= 1,
                    texts.len() == own + symbol.references@.len(),
                    forall|k: int|
                        0 <= k < symbol.references@.len() ==> #[trigger] texts[own + k]
                            == place_text(symbol.references@[k]),
                    fingerprints::extends(table@, start),
                    table@.dom().contains(edit.after@),
                    table@[edit.after@] == after,
                    fingerprints::are_numbers(table@, texts.take(own + i), symbols@),
                decreases symbol.references@.len() - i,
            {
                let (line, column) = symbol.references[i];
                let ghost before = table@;
                let ghost held = symbols@;
                let (more, n) = Self::line_column_fingerprint(table, line, column);
                table = more;
                symbols.push(n);
                proof {
                    assert(texts[own + i] == place_text((line, column)));
                    fingerprints::lemma_next_number(before, table@, texts, held, own + i, n);
                }
                i += 1;
            }
            assert(texts.take(own + i) =~= texts);
        }
        (table, EditPrints { after, symbols })
    }

    /// Takes the fingerprints of all edits. Equal texts have equal ones; which
    /// number a text has depends on the machine.
    pub fn take_prints(edits: &[Edit], evidence: &[EditEvidence]) -> (prints: Vec<EditPrints>)
        requires
            evidence@.len() == edits@.len(),
        ensures
            prints@.len() == evidence@.len(),
            prints_agree(model::edit_views(edits@), evidence@, prints@),
    {
        let ghost all = model::edit_views(edits@);
        let mut table = Fingerprints::new();
        let mut prints: Vec<EditPrints> = Vec::new();
        let mut i: usize = 0;
        while i < edits.len()
            invariant
                i <= edits@.len(),
                all == model::edit_views(edits@),
                evidence@.len() == edits@.len(),
                prints@.len() == i,
                forall|k: int|
                    0 <= k < i ==> are_prints(
                        table@,
                        all[k],
                        evidence@[k],
                        #[trigger] prints@[k],
                    ),
            decreases edits@.len() - i,
        {
            let ghost before = table@;
            let ghost held = prints@;
            let (more, p) = Self::prints_of(table, &edits[i], &evidence[i]);
            table = more;
            prints.push(p);
            proof {
                assert(all[i as int] == edits@[i as int]@);
                assert forall|k: int| 0 <= k < i + 1 implies are_prints(
                    table@,
                    all[k],
                    evidence@[k],
                    #[trigger] prints@[k],
                ) by {
                    if k < i {
                        assert(held[k] == prints@[k]);
                        fingerprints::lemma_numbers_stay(
                            before,
                            table@,
                            symbol_texts(evidence@[k]),
                            held[k].symbols@,
                        );
                    }
                }
            }
            i += 1;
        }
        assert(are_all_prints(table@, all, evidence@, prints@));
        prints
    }

    /// Makes candidates of edits.
    pub fn propose(
        &self,
        policy_name: &str,
        edits: &[Edit],
        evidence: &[EditEvidence],
        context: &ProposalContext<'_>,
    ) -> (r: Vec<PolicyEditCandidate>)
        requires
            evidence@.len() == edits@.len(),
        ensures
            exists|prints: Seq<EditPrints>|
                prints_agree(model::edit_views(edits@), evidence@, prints)
                    && conflict_solver::views(r@) == #[trigger] proposed(
                    policy_name@,
                    model::edit_views(edits@),
                    evidence@,
                    prints,
                    *context,
                    edits@.len() as int,
                ),
    {
        let prints = Self::take_prints(edits, evidence);
        self.propose_with_prints(policy_name, edits, evidence, prints.as_slice(), context)
    }

    /// Tells the candidates that may go on from the lines that are held back.
    pub fn assess(candidates: &[PolicyEditCandidate], capability: &PolicyCapabilities) -> (r:
        GuardianAssessment)
        ensures
            conflict_solver::views(r.allowed@) == allowed_of(
                conflict_solver::views(candidates@),
                *capability,
            ),
            r.blocked_zone_lines@ == zone_lines(conflict_solver::views(candidates@), *capability),
            r.hard_blocked_lines@ == clause_lines(
                conflict_solver::views(candidates@),
                *capability,
            ),
    {
        let ghost all = conflict_solver::views(candidates@);
        let mut allowed: Vec<PolicyEditCandidate> = Vec::new();
        let mut zones = BTreeSet::<usize>::new();
        let mut clauses = BTreeSet::<usize>::new();
        let mut i: usize = 0;
        assert(conflict_solver::views(allowed@) =~= Seq::empty());
        assert(zones@ =~= Set::empty());
        assert(clauses@ =~= Set::empty());
        while i < candidates.len()
            invariant
                i <= candidates@.len(),
                all == conflict_solver::views(candidates@),
                conflict_solver::views(allowed@) == allowed_of(all.take(i as int), *capability),
                zones@ == zone_lines(all.take(i as int), *capability),
                clauses@ == clause_lines(all.take(i as int), *capability),
            decreases candidates@.len() - i,
        {
            let candidate = &candidates[i];
            assert(all.take(i + 1).drop_last() =~= all.take(i as int));
            assert(all.take(i + 1).last() == candidate@);
            if !capability.allows_zone(candidate.zone) {
                zones.insert(candidate.line);
            } else if GlobalConflictSolver::violates_hard_constraints(
                candidate.hard_constraints_touched,
            ) {
                clauses.insert(candidate.line);
            } else {
                let ghost was = allowed@;
                let copy = candidate.clone();
                allowed.push(copy);
                assert(conflict_solver::views(allowed@) =~= conflict_solver::views(was).push(
                    candidate@,
                ));
            }
            i += 1;
        }
        assert(all.take(all.len() as int) =~= all);
        GuardianAssessment {
            allowed,
            blocked_zone_lines: zones,
            hard_blocked_lines: clauses,
        }
    }
}

/// Every candidate goes on, or its line is held back; and one that goes on is
/// in an allowed zone and touches no hard clause.
pub proof fn lemma_assessment_is_complete(
    c: Seq<CandidateView>,
    capability: PolicyCapabilities,
    i: int,
)
    requires
        0 <= i < c.len(),
    ensures
        allowed_of(c, capability).contains(c[i]) || zone_lines(c, capability).contains(c[i].line)
            || clause_lines(c, capability).contains(c[i].line),
        forall|k: int|
            0 <= k < allowed_of(c, capability).len() ==> may_go_on(
                #[trigger] allowed_of(c, capability)[k],
                capability,
            ),
    decreases c.len(),
{
    let rest = c.drop_last();
    let all = allowed_of(c, capability);
    if i < rest.len() {
        lemma_assessment_is_complete(rest, capability, i);
        assert(rest[i] == c[i]);
        let some = allowed_of(rest, capability);
        if some.contains(c[i]) {
            let k = choose|k: int| 0 <= k < some.len() && some[k] == c[i];
            assert(all[k] == c[i]);
        }
    } else {
        if may_go_on(c.last(), capability) {
            assert(all[all.len() - 1] == c.last());
        }
        if rest.len() > 0 {
            lemma_assessment_is_complete(rest, capability, 0);
        }
    }
}

/// An edit that only lies in a macro region is not held back for it.
pub proof fn lemma_macro_region_alone_is_no_bar(
    e: EditEvidence,
    capability: PolicyCapabilities,
    zone: PolicyZone,
)
    requires
        e.safe_edit,
        capability.allowed_zones.has(zone),
    ensures
        !clause::touches_hard_clause(touched_clauses(e, true, capability, zone)),
{
    let mask = touched_clauses(e, true, capability, zone);
    assert(mask == 0u16 || mask == 0u16 | 32u16);
    assert(0u16 | 32u16 == 32u16) by (bit_vector);
    assert forall|one: SemanticInvariantClause| one.is_hard() implies mask & #[trigger] one.mask()
        == 0 by {
        assert(0u16 & 1u16 == 0 && 0u16 & 2u16 == 0 && 0u16 & 4u16 == 0 && 0u16 & 8u16 == 0 && 0u16
            & 16u16 == 0 && 0u16 & 64u16 == 0 && 0u16 & 128u16 == 0 && 0u16 & 256u16 == 0)
            by (bit_vector);
        assert(32u16 & 1u16 == 0 && 32u16 & 2u16 == 0 && 32u16 & 4u16 == 0 && 32u16 & 8u16 == 0
            && 32u16 & 16u16 == 0 && 32u16 & 64u16 == 0 && 32u16 & 128u16 == 0 && 32u16 & 256u16
            == 0) by (bit_vector);
    }
}

/// Edits that leave the same text on their lines have the same fingerprint.
pub proof fn lemma_same_text_same_print(
    edits: Seq<EditView>,
    evidence: Seq<EditEvidence>,
    prints: Seq<EditPrints>,
    i: int,
    j: int,
)
    requires
        prints_agree(edits, evidence, prints),
        0 <= i < prints.len(),
        0 <= j < prints.len(),
        edits[i].after == edits[j].after,
    ensures
        prints[i].after == prints[j].after,
{
    let table = choose|table: Map<Seq<char>, u64>|
        are_all_prints(table, edits, evidence, prints);
    assert(are_prints(table, edits[i], evidence[i], prints[i]));
    assert(are_prints(table, edits[j], evidence[j], prints[j]));
}

/// Edits at one declared symbol have its fingerprint in common.
pub proof fn lemma_same_symbol_same_print(
    edits: Seq<EditView>,
    evidence: Seq<EditEvidence>,
    prints: Seq<EditPrints>,
    i: int,
    j: int,
)
    requires
        prints_agree(edits, evidence, prints),
        0 <= i < prints.len(),
        0 <= j < prints.len(),
        evidence[i].symbol matches Some(a) && a.declared,
        evidence[j].symbol matches Some(b) && b.declared,
        evidence[i].symbol->Some_0.stable_id@ == evidence[j].symbol->Some_0.stable_id@,
    ensures
        prints[i].symbols@.len() > 0,
        prints[j].symbols@.len() > 0,
        prints[i].symbols@[0] == prints[j].symbols@[0],
{
    let table = choose|table: Map<Seq<char>, u64>|
        are_all_prints(table, edits, evidence, prints);
    assert(are_prints(table, edits[i], evidence[i], prints[i]));
    assert(are_prints(table, edits[j], evidence[j], prints[j]));
    fingerprints::lemma_equal_texts(
        table,
        symbol_texts(evidence[i]),
        prints[i].symbols@,
        symbol_texts(evidence[j]),
        prints[j].symbols@,
        0,
        0,
    );
}

proof fn lemma_touched_bits(
    e: EditEvidence,
    available: bool,
    capability: PolicyCapabilities,
    zone: PolicyZone,
)
    ensures
        ({
            let mask = touched_clauses(e, available, capability, zone);
            &&& mask & 32 != 0 <==> e.in_macro_region
            &&& mask & 256 != 0 <==> !e.safe_edit
            &&& mask & 1 != 0 <==> !available
            &&& mask & 64 != 0 <==> !capability.allowed_zones.has(zone)
            &&& mask & 2 == 0 && mask & 4 == 0 && mask & 8 == 0 && mask & 16 == 0 && mask & 128 == 0
        }),
{
    let a: u16 = if e.in_macro_region {
        32
    } else {
        0
    };
    let b: u16 = if !e.safe_edit {
        256
    } else {
        0
    };
    let c: u16 = if !available {
        1
    } else {
        0
    };
    let d: u16 = if !capability.allowed_zones.has(zone) {
        64
    } else {
        0
    };
    let mask = touched_clauses(e, available, capability, zone);
    assert(0u16 | a == a && (a | b) | 0 == a | b && (a | 0) == a && ((a | b) | c) | 0 == (a | b) | c)
        by (bit_vector);
    assert(mask == ((a | b) | c) | d);
    assert((a == 0 || a == 32) && (b == 0 || b == 256) && (c == 0 || c == 1) && (d == 0 || d == 64)
        ==> {
        let m = ((a | b) | c) | d;
        &&& m & 32 != 0 <==> a == 32
        &&& m & 256 != 0 <==> b == 256
        &&& m & 1 != 0 <==> c == 1
        &&& m & 64 != 0 <==> d == 64
        &&& m & 2 == 0 && m & 4 == 0 && m & 8 == 0 && m & 16 == 0 && m & 128 == 0
    }) by (bit_vector);
}

/// What an edit becomes: a candidate for its line, in the zone that its
/// surroundings give, as risky as the policy, as sure as what is left of the
/// confidence, from none to all, and reaching at least as far as asked. Its
/// mask tells what it touches: a macro, a line that is not safe, a file that
/// could not be read, a zone that is not allowed.
pub proof fn lemma_what_an_edit_becomes(
    policy: Seq<char>,
    e: EditView,
    evidence: EditEvidence,
    prints: EditPrints,
    c: ProposalContext,
)
    ensures
        ({
            let r = candidate_for(policy, e, evidence, prints, c);
            let directive = evidence.in_macro_region || evidence.region_at == Some(
                SemanticRegionKind::Preprocessor,
            ) || evidence.scope_at == Some(SemanticScopeKind::Preprocessor) || exists|k: int|
                0 <= k < evidence.regions_on_line@.len() && #[trigger] evidence.regions_on_line@[k]
                    == SemanticRegionKind::Preprocessor;
            let comment = c.comment_lines is Some && c.comment_lines->Some_0@.contains(e.line);
            let left = c.confidence - c.confidence_penalty - c.trust_deficit_penalty;
            &&& r.policy == policy && r.line == e.line
            &&& r.after_fingerprint == prints.after
            &&& r.risk_tier == c.capability.risk_tier
            &&& r.zone == PolicyZone::Preprocessor <==> directive
            &&& r.zone == PolicyZone::Comments <==> comment && !directive
            &&& 0 <= left <= 1_000_000_000 ==> r.confidence == left
            &&& left < 0 ==> r.confidence == 0
            &&& left > 1_000_000_000 ==> r.confidence == 1_000_000_000
            &&& r.impact_radius >= 1 && r.impact_radius >= c.richness_radius && r.impact_radius
                >= c.convergence_signal.impact_radius
            &&& r.impact_radius == 1 || r.impact_radius == c.richness_radius || r.impact_radius
                == c.convergence_signal.impact_radius
            &&& r.hard_constraints_touched & 32 != 0 <==> evidence.in_macro_region
            &&& r.hard_constraints_touched & 256 != 0 <==> !evidence.safe_edit
            &&& r.hard_constraints_touched & 1 != 0 <==> !c.available
            &&& r.hard_constraints_touched & 64 != 0 <==> !c.capability.allowed_zones.has(r.zone)
        }),
{
    let r = candidate_for(policy, e, evidence, prints, c);
    lemma_touched_bits(evidence, c.available, c.capability, r.zone);
    let regions = evidence.regions_on_line@;
    if regions.contains(SemanticRegionKind::Preprocessor) {
        let k = choose|k: int|
            0 <= k < regions.len() && regions[k] == SemanticRegionKind::Preprocessor;
        assert(regions[k] == SemanticRegionKind::Preprocessor);
    }
}

/// Each edit that names a line and changes it becomes a candidate for that
/// line, and no other edit becomes one.
pub proof fn lemma_every_change_is_proposed(
    policy: Seq<char>,
    edits: Seq<EditView>,
    evidence: Seq<EditEvidence>,
    prints: Seq<EditPrints>,
    c: ProposalContext,
    n: int,
    x: CandidateView,
)
    requires
        n <= edits.len(),
    ensures
        proposed(policy, edits, evidence, prints, c, n).contains(x) <==> exists|k: int|
            0 <= k < n && (#[trigger] edits[k]).line > 0 && edits[k].before != edits[k].after && x
                == candidate_for(policy, edits[k], evidence[k], prints[k], c),
    decreases n,
{
    if n > 0 {
        lemma_every_change_is_proposed(policy, edits, evidence, prints, c, n - 1, x);
        let rest = proposed(policy, edits, evidence, prints, c, n - 1);
        let all = proposed(policy, edits, evidence, prints, c, n);
        if rest.contains(x) {
            let k = choose|k: int| 0 <= k < rest.len() && rest[k] == x;
            assert(all[k] == x);
        }
        if edits[n - 1].changes() && x == candidate_for(
            policy,
            edits[n - 1],
            evidence[n - 1],
            prints[n - 1],
            c,
        ) {
            assert(all[rest.len() as int] == x);
        }
        if all.contains(x) {
            let k = choose|k: int| 0 <= k < all.len() && all[k] == x;
            if k < rest.len() {
                assert(rest[k] == x);
            } else {
                assert(edits[n - 1].line > 0 && edits[n - 1].before != edits[n - 1].after);
            }
        }
    }
}

/// Which candidates may go on: those in a zone that is allowed and whose mask
/// holds no bit of a clause other than that on macros. The others have their
/// lines held back, for their zone or else for a clause.
pub proof fn lemma_who_may_go_on(
    c: Seq<CandidateView>,
    capability: PolicyCapabilities,
    x: CandidateView,
    line: usize,
)
    ensures
        ({
            let forbids = |mask: u16|
                mask & 1 != 0 || mask & 2 != 0 || mask & 4 != 0 || mask & 8 != 0 || mask & 16 != 0
                    || mask & 64 != 0 || mask & 128 != 0 || mask & 256 != 0;
            &&& allowed_of(c, capability).contains(x) <==> c.contains(x)
                && capability.allowed_zones.has(x.zone) && !forbids(x.hard_constraints_touched)
            &&& zone_lines(c, capability).contains(line) <==> exists|k: int|
                0 <= k < c.len() && (#[trigger] c[k]).line == line && !capability.allowed_zones.has(
                    c[k].zone,
                )
            &&& clause_lines(c, capability).contains(line) <==> exists|k: int|
                0 <= k < c.len() && (#[trigger] c[k]).line == line && capability.allowed_zones.has(
                    c[k].zone,
                ) && forbids(c[k].hard_constraints_touched)
        }),
    decreases c.len(),
{
    clause::lemma_bits_that_forbid(x.hard_constraints_touched);
    if c.len() > 0 {
        let head = c.drop_last();
        let last = c.last();
        lemma_who_may_go_on(head, capability, x, line);
        clause::lemma_bits_that_forbid(last.hard_constraints_touched);
        let forbids = |mask: u16|
            mask & 1 != 0 || mask & 2 != 0 || mask & 4 != 0 || mask & 8 != 0 || mask & 16 != 0
                || mask & 64 != 0 || mask & 128 != 0 || mask & 256 != 0;
        assert(c[c.len() - 1] == last);
        assert forall|k: int| 0 <= k < head.len() implies head[k] == #[trigger] c[k] by {}
        let some = allowed_of(head, capability);
        let all = allowed_of(c, capability);
        if some.contains(x) {
            let k = choose|k: int| 0 <= k < some.len() && some[k] == x;
            assert(all[k] == x);
        }
        if all.contains(x) {
            let k = choose|k: int| 0 <= k < all.len() && all[k] == x;
            if k < some.len() {
                assert(some[k] == x);
            }
        }
        if x == last && may_go_on(last, capability) {
            assert(all[some.len() as int] == x);
        }
        if head.contains(x) {
            let k = choose|k: int| 0 <= k < head.len() && head[k] == x;
            assert(c[k] == x);
        }
        if c.contains(x) {
            let k = choose|k: int| 0 <= k < c.len() && c[k] == x;
            if k < head.len() {
                assert(head[k] == x);
            }
        }
        if exists|k: int|
            0 <= k < c.len() && (#[trigger] c[k]).line == line && !capability.allowed_zones.has(
                c[k].zone,
            ) {
            let k = choose|k: int|
                0 <= k < c.len() && (#[trigger] c[k]).line == line
                    && !capability.allowed_zones.has(c[k].zone);
            if k < head.len() {
                assert(head[k].line == line);
            }
        }
        if exists|k: int|
            0 <= k < head.len() && (#[trigger] head[k]).line == line
                && !capability.allowed_zones.has(head[k].zone) {
            let k = choose|k: int|
                0 <= k < head.len() && (#[trigger] head[k]).line == line
                    && !capability.allowed_zones.has(head[k].zone);
            assert(c[k].line == line);
        }
        if exists|k: int|
            0 <= k < c.len() && (#[trigger] c[k]).line == line && capability.allowed_zones.has(
                c[k].zone,
            ) && forbids(c[k].hard_constraints_touched) {
            let k = choose|k: int|
                0 <= k < c.len() && (#[trigger] c[k]).line == line && capability.allowed_zones.has(
                    c[k].zone,
                ) && forbids(c[k].hard_constraints_touched);
            if k < head.len() {
                assert(head[k].line == line);
            }
        }
        if exists|k: int|
            0 <= k < head.len() && (#[trigger] head[k]).line == line
                && capability.allowed_zones.has(head[k].zone) && forbids(
                head[k].hard_constraints_touched,
            ) {
            let k = choose|k: int|
                0 <= k < head.len() && (#[trigger] head[k]).line == line
                    && capability.allowed_zones.has(head[k].zone) && forbids(
                    head[k].hard_constraints_touched,
                );
            assert(c[k].line == line);
        }
    }
}

/// What a change of style is worth: nothing where nothing changes; the base, and
/// the whole bonus for a small change, where the length stays, with the bonus
/// for white space where no more than outer white space changes; and no more
/// than the base where the length changes by much.
pub proof fn lemma_worth_of_style(before: Seq<char>, after: Seq<char>, w: StyleWeights)
    ensures
        before == after ==> style_worth(before, after, w) == 0,
        before != after && text::trimmed(before) == text::trimmed(after) ==> style_worth(
            before,
            after,
            w,
        ) == w.base + w.whitespace_bonus + w.delta_bonus,
        text::trimmed(before) != text::trimmed(after) && byte_len(text::trimmed(before))
            == byte_len(text::trimmed(after)) ==> style_worth(before, after, w) == w.base
            + w.delta_bonus,
        byte_len(text::trimmed(before)) >= byte_len(text::trimmed(after)) + 32 || byte_len(
            text::trimmed(after),
        ) >= byte_len(text::trimmed(before)) + 32 ==> style_worth(before, after, w) == w.base,
{
    assert(0 * w.delta_bonus / 32 == 0);
    assert(32 * w.delta_bonus / 32 == w.delta_bonus);
}

} // verus!
