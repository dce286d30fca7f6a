//! Limits that depend on how far a file is trusted.
//!
//! Shares are fixed-point numbers in billionths. A limit is a table
//! value that is scaled by a piecewise linear function of a share.
use std::collections::BTreeSet;
use vstd::prelude::*;

use crate::compdb::SemanticCompdbContextKind;
use crate::post_check::DiagnosticWeights;
use crate::semantic_contract::{SemanticInvariantClause, TransitionPenalties};

verus! {

broadcast use {
    vstd::std_specs::btree::group_btree_axioms,
    vstd::laws_cmp::group_laws_cmp,
};

/// One, in billionths.
pub const UNIT: u32 = 1_000_000_000;

/// The trust in a file of which nothing is known.
pub const DEFAULT_TRUST: u32 = 500_000_000;

/// How many observations make an estimate usable.
pub const USABLE_OBSERVATIONS: u32 = 3;

/// What is known of a file from earlier runs. All fields but the count are
/// shares.
#[derive(Clone, Copy, Debug, PartialEq, Eq, Structural)]
pub struct PolicyCertainty {
    pub structural: u32,
    pub semantic: u32,
    pub coverage: u32,
    pub richness: u32,
    /// The lower ends of the confidence intervals.
    pub semantic_lower_ci: u32,
    pub edit_success_lower_ci: u32,
    /// How likely the file is in a stable or a noisy state.
    pub stable_model_prob: u32,
    pub noisy_model_prob: u32,
    /// The trust in edits of any kind, and in those of structure.
    pub general_trust: u32,
    pub structural_trust: u32,
    pub observation_count: u32,
}

/// A share is at most one.
pub open spec fn share(x: u32) -> int {
    if x > UNIT {
        UNIT as int
    } else {
        x as int
    }
}

/// The broken line through three values: the first at zero, the second at one
/// half, the third at one.
pub open spec fn interp(x: u32, c0: int, c1: int, c2: int) -> int {
    let x = share(x);
    if x <= 500_000_000 {
        c0 + (c1 - c0) * (2 * x) / 1_000_000_000
    } else {
        c1 + (c2 - c1) * (2 * (x - 500_000_000)) / 1_000_000_000
    }
}

/// A value in billionths to the nearest whole; halves go up.
pub open spec fn rounded(v: int) -> int {
    (v + 500_000_000) / 1_000_000_000
}

/// The larger of two numbers.
pub open spec fn at_least(n: int, floor: int) -> int {
    if n < floor {
        floor
    } else {
        n
    }
}

pub(crate) fn floor_div(n: i128, d: i128) -> (r: i128)
    requires
        0 < d <= 1_000_000_000,
        -0x4_0000_0000_0000_0000_0000_0000 <= n <= 0x4_0000_0000_0000_0000_0000_0000,
    ensures
        r == n as int / d as int,
{
    if n >= 0 {
        n / d
    } else {
        let m: i128 = -n;
        let q: i128 = (m + (d - 1)) / d;
        assert(n as int / d as int == -q) by {
            vstd::arithmetic::div_mod::lemma_fundamental_div_mod(m + (d - 1), d as int);
            let rem = (m + (d - 1)) % (d as int);
            assert(0 <= rem < d) by {
                vstd::arithmetic::div_mod::lemma_mod_bound(m + (d - 1), d as int);
            }
            assert(m + (d - 1) == d * q + rem);
            let rest = (d - 1) - rem;
            assert(n == d * (-q) + rest) by (nonlinear_arith)
                requires
                    m + (d - 1) == d * q + rem,
                    rest == (d - 1) - rem,
                    n == -m,
            ;
            vstd::arithmetic::div_mod::lemma_fundamental_div_mod_converse(
                n as int,
                d as int,
                -q as int,
                rest as int,
            );
        }
        -q
    }
}

/// The place between two table values.
fn between(from: i64, to: i64, t: u32) -> (r: i64)
    requires
        t <= 1_000_000_000,
    ensures
        r == from + (to - from) * t / 1_000_000_000,
{
    let step: i128 = to as i128 - from as i128;
    let part: i128 = t as i128;
    proof {
        assert(-0x1_0000_0000_0000_0000 <= step <= 0x1_0000_0000_0000_0000);
        assert(-0x4_0000_0000_0000_0000_0000_0000 <= step * part
            <= 0x4_0000_0000_0000_0000_0000_0000) by (nonlinear_arith)
            requires
                -0x1_0000_0000_0000_0000 <= step <= 0x1_0000_0000_0000_0000,
                0 <= part <= 1_000_000_000,
        ;
        lemma_part(step as int, part as int);
    }
    let moved: i128 = floor_div(step * part, 1_000_000_000);
    (from as i128 + moved) as i64
}

/// A share as the nearest one from none to all.
pub open spec fn clamped(x: i64) -> u32 {
    if x < 0 {
        0
    } else if x > UNIT {
        UNIT
    } else {
        x as u32
    }
}

/// The broken line through three table values. It goes on level on either side.
pub fn kalman_interp(x: i64, c0: i64, c1: i64, c2: i64) -> (r: i64)
    ensures
        r == interp(clamped(x), c0 as int, c1 as int, c2 as int),
        0 <= x <= u32::MAX ==> r == interp(x as u32, c0 as int, c1 as int, c2 as int),
{
    let x: u32 = if x < 0 {
        0
    } else if x > UNIT as i64 {
        UNIT
    } else {
        x as u32
    };
    if x <= 500_000_000 {
        between(c0, c1, 2 * x)
    } else {
        between(c1, c2, 2 * (x - 500_000_000))
    }
}

/// Between rising or falling table values the broken line stays between the
/// outer ones.
pub proof fn lemma_interp_bounds(x: u32, c0: int, c1: int, c2: int)
    ensures
        c0 <= c1 <= c2 ==> c0 <= interp(x, c0, c1, c2) <= c2,
        c0 >= c1 >= c2 ==> c2 <= interp(x, c0, c1, c2) <= c0,
{
    let s = share(x);
    if s <= 500_000_000 {
        lemma_part(c1 - c0, 2 * s);
    } else {
        lemma_part(c2 - c1, 2 * (s - 500_000_000));
    }
}

proof fn lemma_part(d: int, t: int)
    requires
        0 <= t <= 1_000_000_000,
    ensures
        d >= 0 ==> 0 <= d * t / 1_000_000_000 <= d,
        d <= 0 ==> d <= d * t / 1_000_000_000 <= 0,
{
    if d >= 0 {
        assert(0 <= d * t <= d * 1_000_000_000) by (nonlinear_arith)
            requires
                d >= 0,
                0 <= t <= 1_000_000_000,
        ;
    } else {
        assert(d * 1_000_000_000 <= d * t <= 0) by (nonlinear_arith)
            requires
                d <= 0,
                0 <= t <= 1_000_000_000,
        ;
    }
}

/// A higher trust never lowers a rising limit.
pub proof fn lemma_interp_is_monotone(x: u32, y: u32, c0: int, c1: int, c2: int)
    requires
        x <= y,
        c0 <= c1 <= c2,
    ensures
        interp(x, c0, c1, c2) <= interp(y, c0, c1, c2),
{
    let a = share(x);
    let b = share(y);
    if b <= 500_000_000 {
        assert((c1 - c0) * (2 * a) <= (c1 - c0) * (2 * b)) by (nonlinear_arith)
            requires
                c1 - c0 >= 0,
                a <= b,
        ;
    } else if a > 500_000_000 {
        assert((c2 - c1) * (2 * (a - 500_000_000)) <= (c2 - c1) * (2 * (b - 500_000_000)))
            by (nonlinear_arith)
            requires
                c2 - c1 >= 0,
                a <= b,
        ;
    } else {
        lemma_part(c1 - c0, 2 * a);
        lemma_part(c2 - c1, 2 * (b - 500_000_000));
    }
}

/// A table value scaled by a factor in billionths, and rounded.
pub open spec fn scaled(base: int, factor: int) -> int {
    rounded(base * factor)
}

fn scale(base: i64, factor: i64) -> (r: i64)
    requires
        0 <= base <= 1_000_000_000,
        0 <= factor <= 4_000_000_000,
    ensures
        r == scaled(base as int, factor as int),
        0 <= r <= 4_000_000_000,
{
    assert(0 <= base * factor <= 4_000_000_000_000_000_000) by (nonlinear_arith)
        requires
            0 <= base <= 1_000_000_000,
            0 <= factor <= 4_000_000_000,
    ;
    nearest(base * factor)
}

fn nearest(v: i64) -> (r: i64)
    requires
        0 <= v <= 4_000_000_000_000_000_000,
    ensures
        r == rounded(v as int),
{
    (v + 500_000_000) / 1_000_000_000
}

fn ordered_interp(x: u32, c0: i64, c1: i64, c2: i64) -> (r: i64)
    requires
        c0 <= c1 <= c2 || c0 >= c1 >= c2,
    ensures
        r == interp(x, c0 as int, c1 as int, c2 as int),
        c0 <= c2 ==> c0 <= r <= c2,
        c2 <= c0 ==> c2 <= r <= c0,
{
    proof {
        lemma_interp_bounds(x, c0 as int, c1 as int, c2 as int);
    }
    kalman_interp(x as i64, c0, c1, c2)
}

/// What a diagnostic of a severity weighs.
pub open spec fn severity_weight(level: u8, trust: u32) -> int {
    let base: int = match level {
        0u8 => 1,
        1u8 => 3,
        2u8 => 8,
        _ => 12,
    };
    at_least(scaled(base, interp(trust, 700_000_000, 1_000_000_000, 1_300_000_000)), 1)
}

/// What a diagnostic weighs: more the more serious it is, and the more the file
/// is trusted.
pub fn fuzzy_severity_weight(severity_level: u8, trust: u32) -> (r: u32)
    ensures
        r == severity_weight(severity_level, trust),
{
    let base: i64 = match severity_level {
        0 => 1,
        1 => 3,
        2 => 8,
        _ => 12,
    };
    let r = scale(base, ordered_interp(trust, 700_000_000, 1_000_000_000, 1_300_000_000));
    if r < 1 {
        1
    } else {
        r as u32
    }
}

/// The weights of all severities.
pub fn diagnostic_weights(trust: u32) -> (r: DiagnosticWeights)
    ensures
        r.note == severity_weight(0, trust),
        r.warning == severity_weight(1, trust),
        r.error == severity_weight(2, trust),
        r.fatal == severity_weight(3, trust),
{
    DiagnosticWeights {
        note: fuzzy_severity_weight(0, trust),
        warning: fuzzy_severity_weight(1, trust),
        error: fuzzy_severity_weight(2, trust),
        fatal: fuzzy_severity_weight(3, trust),
    }
}

/// A more serious diagnostic never weighs less.
pub proof fn lemma_weights_follow_severity(trust: u32)
    ensures
        severity_weight(0, trust) < severity_weight(1, trust) < severity_weight(2, trust)
            < severity_weight(3, trust),
{
    lemma_interp_bounds(trust, 700_000_000, 1_000_000_000, 1_300_000_000);
    let f = interp(trust, 700_000_000, 1_000_000_000, 1_300_000_000);
    assert(700_000_000 <= f <= 1_300_000_000);
}

/// What a regression of a kind costs.
pub open spec fn transition_penalty(kind: u8, certainty: u32) -> int {
    let base: int = match kind {
        0u8 => 90,
        1u8 => 70,
        2u8 => 55,
        3u8 => 65,
        4u8 => 80,
        _ => 70,
    };
    at_least(scaled(base, interp(certainty, 650_000_000, 1_000_000_000, 1_300_000_000)), 20)
}

/// What a regression costs: more the more the file is trusted.
pub fn fuzzy_transition_penalty(kind: u8, certainty: u32) -> (r: u32)
    ensures
        r == transition_penalty(kind, certainty),
{
    let base: i64 = match kind {
        0 => 90,
        1 => 70,
        2 => 55,
        3 => 65,
        4 => 80,
        _ => 70,
    };
    let r = scale(base, ordered_interp(certainty, 650_000_000, 1_000_000_000, 1_300_000_000));
    if r < 20 {
        20
    } else {
        r as u32
    }
}

/// What each kind of regression costs.
pub fn transition_penalties(certainty: u32) -> (r: TransitionPenalties)
    ensures
        r.identity == transition_penalty(0, certainty),
        r.reference == transition_penalty(1, certainty),
        r.usage == transition_penalty(2, certainty),
        r.orphan == transition_penalty(3, certainty),
        r.scope == transition_penalty(4, certainty),
{
    TransitionPenalties {
        identity: fuzzy_transition_penalty(0, certainty),
        reference: fuzzy_transition_penalty(1, certainty),
        usage: fuzzy_transition_penalty(2, certainty),
        orphan: fuzzy_transition_penalty(3, certainty),
        scope: fuzzy_transition_penalty(4, certainty),
    }
}

/// How far diagnostics may grow under guessed options, by the number of the
/// context's kind.
pub open spec fn context_base(kind: u8) -> (int, int) {
    match kind {
        0u8 => (0, 0),
        1u8 => (24, 4),
        2u8 => (6, 4),
        3u8 => (4, 2),
        _ => (8, 5),
    }
}

/// Tolerances under guessed options: smaller the more the file is trusted.
pub fn fuzzy_context_tol(kind: u8, trust: u32) -> (r: (usize, usize))
    ensures
        ({
            let factor = interp(trust, 1_400_000_000, 1_000_000_000, 700_000_000);
            &&& r.0 == scaled(context_base(kind).0, factor)
            &&& r.1 == scaled(context_base(kind).1, factor)
        }),
{
    let (base_ref, base_scope): (i64, i64) = match kind {
        0 => (0, 0),
        1 => (24, 4),
        2 => (6, 4),
        3 => (4, 2),
        _ => (8, 5),
    };
    let factor = ordered_interp(trust, 1_400_000_000, 1_000_000_000, 700_000_000);
    (scale(base_ref, factor) as usize, scale(base_scope, factor) as usize)
}

/// How many new errors, and how much new weight, a relaxed check lets pass
/// before the file's certainty is looked at.
pub open spec fn relaxation_base(context_kind_index: u8) -> (int, int) {
    match context_kind_index {
        0u8 => (8, 48),
        1u8 => (1, 10),
        _ => (0, 0),
    }
}

/// The factor by which certainty moves the limits of a relaxed check: tighter
/// where the semantics are well known, looser where the file is noisy.
pub open spec fn relaxation_factor(c: PolicyCertainty) -> int {
    let tightness = interp(c.semantic, 1_400_000_000, 1_000_000_000, 600_000_000);
    let looseness = 1_000_000_000 + share(c.noisy_model_prob) * 4 / 10;
    tightness * looseness / 1_000_000_000
}

/// What a relaxed check lets pass.
pub open spec fn relaxation_limits(
    context_kind_index: u8,
    certainty: Option<PolicyCertainty>,
) -> (int, int) {
    let (severe, weight) = relaxation_base(context_kind_index);
    match certainty {
        Some(c) => if severe == 0 {
            (0, 0)
        } else {
            (
                at_least(scaled(severe, relaxation_factor(c)), 1),
                at_least(scaled(weight, relaxation_factor(c)), 1),
            )
        },
        None => (severe, weight),
    }
}

/// What a relaxed check lets pass.
pub fn fuzzy_relaxation_limits(context_kind_index: u8, certainty: Option<&PolicyCertainty>) -> (r: (
    usize,
    u32,
))
    ensures
        ({
            let limits = relaxation_limits(
                context_kind_index,
                match certainty {
                    Some(c) => Some(*c),
                    None => None,
                },
            );
            r.0 == limits.0 && r.1 == limits.1
        }),
{
    let (severe, weight): (i64, i64) = match context_kind_index {
        0 => (8, 48),
        1 => (1, 10),
        _ => (0, 0),
    };
    if severe == 0 {
        return (0, 0);
    }
    match certainty {
        None => (severe as usize, weight as u32),
        Some(c) => {
            let tightness = ordered_interp(c.semantic, 1_400_000_000, 1_000_000_000, 600_000_000);
            let noisy: i64 = if c.noisy_model_prob > UNIT {
                UNIT as i64
            } else {
                c.noisy_model_prob as i64
            };
            let looseness: i64 = 1_000_000_000 + noisy * 4 / 10;
            assert(600_000_000 * 1_000_000_000 <= tightness * looseness <= 1_400_000_000
                * 1_400_000_000)
                by (nonlinear_arith)
                requires
                    600_000_000 <= tightness <= 1_400_000_000,
                    1_000_000_000 <= looseness <= 1_400_000_000,
            ;
            let factor: i64 = tightness * looseness / 1_000_000_000;
            let a = scale(severe, factor);
            let b = scale(weight, factor);
            (
                if a < 1 {
                    1
                } else {
                    a as usize
                },
                if b < 1 {
                    1
                } else {
                    b as u32
                },
            )
        },
    }
}

/// What guessed options add to the tolerances of a comparison.
pub open spec fn context_extra(kind: SemanticCompdbContextKind) -> (nat, nat) {
    match kind {
        SemanticCompdbContextKind::Exact => (0, 0),
        SemanticCompdbContextKind::PairedSourceHeuristic => (24, 4),
        SemanticCompdbContextKind::HeaderConsensus => (6, 4),
        SemanticCompdbContextKind::SourceConsensus => (4, 2),
        SemanticCompdbContextKind::Absent => (2, 1),
    }
}

/// A number that stops at the largest one there is.
pub open spec fn capped(n: int) -> int {
    if n >= usize::MAX {
        usize::MAX as int
    } else {
        n
    }
}

/// A sum that stops at the largest number there is.
pub open spec fn capped_sum(a: usize, b: nat) -> usize {
    if a + b >= usize::MAX {
        usize::MAX
    } else {
        (a + b) as usize
    }
}

/// How many further references a rich file may lose.
pub open spec fn richness_extra(c: PolicyCertainty) -> int {
    if c.richness >= 1_500_000_000 {
        3
    } else {
        c.richness as int * 2 / 1_000_000_000
    }
}

/// The tolerances of a comparison: the base alone where no lines are named;
/// with what guessed options add where few lines are edited or nothing is known
/// of the file; and else scaled by what is known.
pub open spec fn transition_tols(
    kind: SemanticCompdbContextKind,
    base_ref: usize,
    base_scope: usize,
    certainty: Option<PolicyCertainty>,
    edited: Option<Set<usize>>,
) -> (int, int) {
    let refs = capped_sum(base_ref, context_extra(kind).0);
    let scopes = capped_sum(base_scope, context_extra(kind).1);
    if edited is None {
        (base_ref as int, base_scope as int)
    } else if edited->Some_0.len() < 2 || certainty is None {
        (refs as int, scopes as int)
    } else {
        let c = certainty->Some_0;
        let ref_factor = interp(c.semantic, 1_500_000_000, 1_000_000_000, 600_000_000);
        let scope_factor = interp(c.coverage, 1_400_000_000, 1_000_000_000, 700_000_000);
        (
            capped(scaled(refs as int, ref_factor) + richness_extra(c)),
            capped(scaled(scopes as int, scope_factor)),
        )
    }
}

fn add_capped(a: usize, b: usize) -> (r: usize)
    ensures
        r == capped_sum(a, b as nat),
{
    if b > usize::MAX - a {
        usize::MAX
    } else {
        a + b
    }
}

fn scale_any(base: usize, factor: i64) -> (r: usize)
    requires
        0 <= factor <= 4_000_000_000,
    ensures
        r == capped(scaled(base as int, factor as int)),
{
    assert(0 <= base as u128 * factor as u128 <= 0xffff_ffff_ffff_ffffu128 * 4_000_000_000)
        by (nonlinear_arith)
        requires
            0 <= base <= 0xffff_ffff_ffff_ffffu128,
            0 <= factor <= 4_000_000_000,
    ;
    let wide: u128 = (base as u128 * factor as u128 + 500_000_000) / 1_000_000_000;
    if wide >= usize::MAX as u128 {
        usize::MAX
    } else {
        wide as usize
    }
}

/// The tolerances of a comparison.
pub fn fuzzy_transition_tols(
    context_kind: SemanticCompdbContextKind,
    base_ref: usize,
    base_scope: usize,
    certainty: Option<&PolicyCertainty>,
    edited_lines: Option<&BTreeSet<usize>>,
) -> (r: (usize, usize))
    ensures
        ({
            let tols = transition_tols(
                context_kind,
                base_ref,
                base_scope,
                match certainty {
                    Some(c) => Some(*c),
                    None => None,
                },
                crate::semantic_contract::transition::lines_view(edited_lines),
            );
            r.0 == tols.0 && r.1 == tols.1
        }),
{
    let (extra_ref, extra_scope): (usize, usize) = match context_kind {
        SemanticCompdbContextKind::Exact => (0, 0),
        SemanticCompdbContextKind::PairedSourceHeuristic => (24, 4),
        SemanticCompdbContextKind::HeaderConsensus => (6, 4),
        SemanticCompdbContextKind::SourceConsensus => (4, 2),
        SemanticCompdbContextKind::Absent => (2, 1),
    };
    let count = match edited_lines {
        Some(lines) => lines.len(),
        None => {
            return (base_ref, base_scope);
        },
    };
    let refs = add_capped(base_ref, extra_ref);
    let scopes = add_capped(base_scope, extra_scope);
    match certainty {
        None => (refs, scopes),
        Some(c) => {
            if count < 2 {
                return (refs, scopes);
            }
            let extra: usize = if c.richness >= 1_500_000_000 {
                3
            } else {
                (c.richness * 2 / 1_000_000_000) as usize
            };
            let ref_factor = ordered_interp(c.semantic, 1_500_000_000, 1_000_000_000, 600_000_000);
            let scope_factor = ordered_interp(
                c.coverage,
                1_400_000_000,
                1_000_000_000,
                700_000_000,
            );
            let a = scale_any(refs, ref_factor);
            let b = scale_any(scopes, scope_factor);
            (add_capped(a, extra), b)
        },
    }
}

/// How many lines around an edit are local.
pub fn fuzzy_locality_radius(certainty: Option<&PolicyCertainty>) -> (r: usize)
    ensures
        ({
            let trust = match certainty {
                Some(c) => c.general_trust,
                None => DEFAULT_TRUST,
            };
            r == at_least(rounded(interp(trust, 2_000_000_000, 4_000_000_000, 7_000_000_000)), 1)
        }),
{
    let trust = match certainty {
        Some(c) => c.general_trust,
        None => DEFAULT_TRUST,
    };
    nearest(ordered_interp(trust, 2_000_000_000, 4_000_000_000, 7_000_000_000)) as usize
}

/// How many lines around an edit may take part in a conflict: fewer the more
/// the file is trusted.
pub fn fuzzy_conflict_neighborhood(trust: u32, is_semantic: bool) -> (r: usize)
    ensures
        ({
            let base: int = if is_semantic {
                8
            } else {
                4
            };
            let tenths = 6 * 1_000_000_000 + 8 * (1_000_000_000 - share(trust));
            let reach = (base * tenths + 5_000_000_000) / 10_000_000_000;
            r == at_least(reach, 2)
        }),
{
    let base: i64 = if is_semantic {
        8
    } else {
        4
    };
    let tenths: i64 = 6_000_000_000 + 8 * (1_000_000_000 - cut(trust));
    let reach: i64 = (base * tenths + 5_000_000_000) / 10_000_000_000;
    if reach < 2 {
        2
    } else {
        reach as usize
    }
}

/// How many errors are reported.
pub fn fuzzy_error_cap(trust: u32) -> (r: usize)
    ensures
        r == rounded(4 * 1_000_000_000 + 12 * share(trust)),
        4 <= r <= 16,
{
    ((4_000_000_000 + 12 * cut(trust) + 500_000_000) / 1_000_000_000) as usize
}

/// How far a count reaches: more the nearer it is to a full one, and less the
/// more the file is trusted.
pub open spec fn count_radius(count: usize, full: int, trust: u32) -> int {
    let part = if count >= full {
        1_000_000_000
    } else {
        count as int * 1_000_000_000 / full
    };
    let raw = part * (12 * 1_000_000_000 - 4 * share(trust)) / 10_000_000_000;
    rounded(2 * (if raw > 1_000_000_000 {
        1_000_000_000
    } else {
        raw
    }))
}

fn radius_of(count: usize, full: i64, trust: u32) -> (r: usize)
    requires
        0 < full <= 1024,
    ensures
        r == count_radius(count, full as int, trust),
        r <= 2,
{
    let part: i64 = if count >= full as usize {
        1_000_000_000
    } else {
        assert(count as int * 1_000_000_000 / full as int <= 1_000_000_000) by (nonlinear_arith)
            requires
                count < full,
                0 < full,
        ;
        assert(count as int * 1_000_000_000 / full as int >= 0) by (nonlinear_arith)
            requires
                0 <= count,
                0 < full,
        ;
        count as i64 * 1_000_000_000 / full
    };
    let weight: i64 = 12_000_000_000 - 4 * cut(trust);
    assert(0 <= part as int * weight as int <= 12_000_000_000_000_000_000) by (nonlinear_arith)
        requires
            0 <= part <= 1_000_000_000,
            0 <= weight <= 12_000_000_000,
    ;
    let raw: i64 = (part as i128 * weight as i128 / 10_000_000_000) as i64;
    let raw: i64 = if raw > 1_000_000_000 {
        1_000_000_000
    } else {
        raw
    };
    ((2 * raw + 500_000_000) / 1_000_000_000) as usize
}

/// How far the references of a file reach.
pub fn fuzzy_ref_radius(ref_count: usize, trust: u32) -> (r: usize)
    ensures
        r == count_radius(ref_count, 1024, trust),
        r <= 2,
{
    radius_of(ref_count, 1024, trust)
}

/// How far the edits of a file reach.
pub fn fuzzy_edit_radius(edit_count: usize, trust: u32) -> (r: usize)
    ensures
        r == count_radius(edit_count, 48, trust),
        r <= 2,
{
    radius_of(edit_count, 48, trust)
}

/// How many ranges an impact may hold.
pub fn fuzzy_impact_cap(trust: u32) -> (r: usize)
    ensures
        r == rounded(interp(trust, 128_000_000_000, 256_000_000_000, 512_000_000_000)),
        128 <= r <= 512,
{
    nearest(ordered_interp(trust, 128_000_000_000, 256_000_000_000, 512_000_000_000)) as usize
}

/// How many scopes an impact may hold.
pub fn fuzzy_scope_cap(trust: u32) -> (r: usize)
    ensures
        r == rounded(interp(trust, 96_000_000_000, 192_000_000_000, 384_000_000_000)),
        96 <= r <= 384,
{
    nearest(ordered_interp(trust, 96_000_000_000, 192_000_000_000, 384_000_000_000)) as usize
}

/// How many symbols an impact may hold.
pub fn fuzzy_symbol_cap(trust: u32) -> (r: usize)
    ensures
        r == rounded(interp(trust, 64_000_000_000, 128_000_000_000, 256_000_000_000)),
        64 <= r <= 256,
{
    nearest(ordered_interp(trust, 64_000_000_000, 128_000_000_000, 256_000_000_000)) as usize
}

/// How many dropped edits a batch may hold.
pub fn fuzzy_batch_dropped_cap(trust: u32) -> (r: usize)
    ensures
        r == rounded(interp(trust, 4_000_000_000, 8_000_000_000, 16_000_000_000)),
        4 <= r <= 16,
{
    nearest(ordered_interp(trust, 4_000_000_000, 8_000_000_000, 16_000_000_000)) as usize
}

/// After how many policies a file is looked at again.
pub fn fuzzy_reobs_interval(trust: u32) -> (r: usize)
    ensures
        r == rounded(interp(trust, 2_000_000_000, 3_000_000_000, 5_000_000_000)),
        2 <= r <= 5,
{
    nearest(ordered_interp(trust, 2_000_000_000, 3_000_000_000, 5_000_000_000)) as usize
}

/// What a clause that holds adds to confidence, in basis points.
pub fn fuzzy_confidence_bonus(clause: u8, trust: u32) -> (r: u16)
    ensures
        r == scaled(
            match clause {
                0u8 => 300,
                1u8 => 250,
                2u8 => 150,
                3u8 => 180,
                _ => 80,
            },
            interp(trust, 700_000_000, 1_000_000_000, 1_250_000_000),
        ),
{
    let base: i64 = match clause {
        0 => 300,
        1 => 250,
        2 => 150,
        3 => 180,
        _ => 80,
    };
    let factor = ordered_interp(trust, 700_000_000, 1_000_000_000, 1_250_000_000);
    let r = scale(base, factor);
    assert(r <= 400);
    r as u16
}

/// What a clause that fails takes from confidence, in basis points.
pub fn fuzzy_failure_deduction(clause: u8, trust: u32) -> (r: u16)
    ensures
        r == scaled(
            match clause {
                0u8 => 120,
                1u8 => 260,
                2u8 => 140,
                3u8 => 100,
                _ => 80,
            },
            interp(trust, 600_000_000, 1_000_000_000, 1_300_000_000),
        ),
{
    let base: i64 = match clause {
        0 => 120,
        1 => 260,
        2 => 140,
        3 => 100,
        _ => 80,
    };
    let factor = ordered_interp(trust, 600_000_000, 1_000_000_000, 1_300_000_000);
    let r = scale(base, factor);
    assert(r <= 400);
    r as u16
}

/// What a poor parse takes from confidence, in basis points.
pub fn fuzzy_fidelity_deduction(fidelity_score: u32, trust: u32) -> (r: u16)
    ensures
        ({
            let base = interp(
                (1_000_000_000 - share(fidelity_score)) as u32,
                0,
                180_000_000_000,
                380_000_000_000,
            );
            let factor = interp(trust, 700_000_000, 1_000_000_000, 1_200_000_000);
            r == (base * factor + 500_000_000_000_000_000) / 1_000_000_000_000_000_000
        }),
{
    let base = ordered_interp(
        (1_000_000_000 - cut(fidelity_score)) as u32,
        0,
        180_000_000_000,
        380_000_000_000,
    );
    let factor = ordered_interp(trust, 700_000_000, 1_000_000_000, 1_200_000_000);
    assert(0 <= base as int * factor as int <= 380_000_000_000 * 1_200_000_000) by (nonlinear_arith)
        requires
            0 <= base <= 380_000_000_000,
            0 <= factor <= 1_200_000_000,
    ;
    let product: i128 = base as i128 * factor as i128;
    ((product + 500_000_000_000_000_000) / 1_000_000_000_000_000_000) as u16
}

/// Whether the structure of a file is known well enough to relax its guards.
pub open spec fn relaxes_guard(c: PolicyCertainty) -> bool {
    let score = share(c.structural) + share(c.edit_success_lower_ci);
    score >= 2 * interp(c.stable_model_prob, 850_000_000, 650_000_000, 500_000_000)
}

fn cut(x: u32) -> (r: i64)
    ensures
        r == share(x),
        0 <= r <= 1_000_000_000,
{
    if x > UNIT {
        UNIT as i64
    } else {
        x as i64
    }
}

/// Whether guards are relaxed. They are not where nothing is known.
pub fn fuzzy_guard_relax(certainty: Option<&PolicyCertainty>) -> (r: bool)
    ensures
        r == match certainty {
            Some(c) => relaxes_guard(*c),
            None => false,
        },
{
    match certainty {
        None => false,
        Some(c) => {
            let score = cut(c.structural) + cut(c.edit_success_lower_ci);
            score >= 2 * ordered_interp(c.stable_model_prob, 850_000_000, 650_000_000, 500_000_000)
        },
    }
}

/// Whether a file is known well enough to relax its zones.
pub open spec fn relaxes_zone(c: PolicyCertainty) -> bool {
    let score = 4 * share(c.semantic_lower_ci) + 6 * share(c.structural);
    score >= 10 * interp(c.stable_model_prob, 850_000_000, 650_000_000, 500_000_000)
}

/// Whether zones are relaxed. They are not where nothing is known.
pub fn fuzzy_zone_relax(certainty: Option<&PolicyCertainty>) -> (r: bool)
    ensures
        r == match certainty {
            Some(c) => relaxes_zone(*c),
            None => false,
        },
{
    match certainty {
        None => false,
        Some(c) => {
            let score = 4 * cut(c.semantic_lower_ci) + 6 * cut(c.structural);
            score >= 10 * ordered_interp(c.stable_model_prob, 850_000_000, 650_000_000, 500_000_000)
        },
    }
}

/// Whether trust can override a clause at all.
pub open spec fn can_be_overridden(clause: SemanticInvariantClause) -> bool {
    clause is EditSafety || clause is TouchContract || clause is MacroRegionSafety
}

/// Whether a clause is overridden.
pub open spec fn overrides(clause: SemanticInvariantClause, c: PolicyCertainty) -> bool {
    can_be_overridden(clause) && c.general_trust >= interp(
        c.stable_model_prob,
        900_000_000,
        700_000_000,
        550_000_000,
    )
}

/// Whether trust overrides a clause. It does not where nothing is known.
pub fn fuzzy_constraint_override(
    certainty: Option<&PolicyCertainty>,
    clause: SemanticInvariantClause,
) -> (r: bool)
    ensures
        r == match certainty {
            Some(c) => overrides(clause, *c),
            None => false,
        },
{
    match clause {
        SemanticInvariantClause::EditSafety
        | SemanticInvariantClause::TouchContract
        | SemanticInvariantClause::MacroRegionSafety => match certainty {
            None => false,
            Some(c) => c.general_trust as i64 >= ordered_interp(
                c.stable_model_prob,
                900_000_000,
                700_000_000,
                550_000_000,
            ),
        },
        _ => false,
    }
}

/// How many lines are formatted at once in a file with errors.
pub open spec fn batch_lines(c: PolicyCertainty, errors: usize) -> int {
    let pressure: int = if errors >= 5 {
        1_000_000_000
    } else {
        errors * 200_000_000
    };
    let trust: int = if c.observation_count >= USABLE_OBSERVATIONS {
        share(c.structural_trust)
    } else {
        500_000_000
    };
    let room = (1_000_000_000 - pressure) * trust / 1_000_000_000;
    let lines = interp(room as u32, 30_000_000_000, 200_000_000_000, 10_000_000_000_000);
    at_least(lines / 1_000_000_000, 10)
}

/// How many lines are formatted at once: all of them in a file without errors,
/// and fewer the more errors there are and the less it is trusted.
pub fn fuzzy_batch_lines(certainty: &PolicyCertainty, file_error_nodes: usize) -> (r: usize)
    ensures
        file_error_nodes == 0 ==> r == usize::MAX,
        file_error_nodes > 0 ==> r == batch_lines(*certainty, file_error_nodes),
{
    if file_error_nodes == 0 {
        return usize::MAX;
    }
    let pressure: i64 = if file_error_nodes >= 5 {
        1_000_000_000
    } else {
        file_error_nodes as i64 * 200_000_000
    };
    let trust: i64 = if certainty.observation_count >= USABLE_OBSERVATIONS {
        cut(certainty.structural_trust)
    } else {
        500_000_000
    };
    assert(0 <= (1_000_000_000 - pressure) * trust <= 1_000_000_000_000_000_000)
        by (nonlinear_arith)
        requires
            0 <= pressure <= 1_000_000_000,
            0 <= trust <= 1_000_000_000,
    ;
    let room: i64 = (1_000_000_000 - pressure) * trust / 1_000_000_000;
    let lines = ordered_interp(room as u32, 30_000_000_000, 200_000_000_000, 10_000_000_000_000);
    let raw: i64 = lines / 1_000_000_000;
    if raw < 10 {
        10
    } else {
        raw as usize
    }
}

/// The broken line meets its three values, and goes straight between them: half
/// way is half way.
pub proof fn lemma_interp_meets_its_values(c0: int, c1: int, c2: int)
    ensures
        interp(0, c0, c1, c2) == c0,
        interp(500_000_000, c0, c1, c2) == c1,
        interp(1_000_000_000, c0, c1, c2) == c2,
        interp(u32::MAX, c0, c1, c2) == c2,
        interp(250_000_000, c0, c1, c2) == c0 + (c1 - c0) / 2,
        interp(750_000_000, c0, c1, c2) == c1 + (c2 - c1) / 2,
{
    assert((c1 - c0) * 0 / 1_000_000_000 == 0);
    assert((c1 - c0) * 1_000_000_000 / 1_000_000_000 == c1 - c0);
    assert((c2 - c1) * 1_000_000_000 / 1_000_000_000 == c2 - c1);
    assert((c1 - c0) * 500_000_000 / 1_000_000_000 == (c1 - c0) / 2);
    assert((c2 - c1) * 500_000_000 / 1_000_000_000 == (c2 - c1) / 2);
}

/// More trust makes a diagnostic and a regression weigh no less.
pub proof fn lemma_trust_makes_strict(level: u8, less: u32, more: u32)
    requires
        less <= more,
    ensures
        severity_weight(level, less) <= severity_weight(level, more),
        transition_penalty(level, less) <= transition_penalty(level, more),
        severity_weight(level, less) >= 1,
        transition_penalty(level, less) >= 20,
{
    lemma_interp_is_monotone(less, more, 700_000_000, 1_000_000_000, 1_300_000_000);
    lemma_interp_is_monotone(less, more, 650_000_000, 1_000_000_000, 1_300_000_000);
    let f = interp(less, 700_000_000, 1_000_000_000, 1_300_000_000);
    let g = interp(more, 700_000_000, 1_000_000_000, 1_300_000_000);
    let p = interp(less, 650_000_000, 1_000_000_000, 1_300_000_000);
    let q = interp(more, 650_000_000, 1_000_000_000, 1_300_000_000);
    assert(f <= g && p <= q);
}

/// With exact options a comparison is no looser than its base, where no line is
/// named or few are edited; and guessed options make none stricter.
pub proof fn lemma_guesses_loosen(
    kind: SemanticCompdbContextKind,
    base_ref: usize,
    base_scope: usize,
    edited: Option<Set<usize>>,
)
    ensures
        transition_tols(SemanticCompdbContextKind::Exact, base_ref, base_scope, None, edited)
            == (base_ref as int, base_scope as int),
        transition_tols(kind, base_ref, base_scope, None, edited).0 >= base_ref,
        transition_tols(kind, base_ref, base_scope, None, edited).1 >= base_scope,
        edited is None ==> transition_tols(kind, base_ref, base_scope, None, edited) == (
            base_ref as int,
            base_scope as int,
        ),
{
}

/// A relaxed check lets nothing pass where options were not guessed.
pub proof fn lemma_nothing_relaxed_without_a_guess(
    context_kind_index: u8,
    certainty: Option<PolicyCertainty>,
)
    requires
        context_kind_index >= 2,
    ensures
        relaxation_limits(context_kind_index, certainty) == (0int, 0int),
{
}

/// What relaxes a guard: a file that is known wholly, and not one of which
/// nothing is known; and no clause but those on safety, touch and macros is ever
/// overridden.
pub proof fn lemma_who_relaxes(c: PolicyCertainty, clause: SemanticInvariantClause)
    ensures
        c.structural >= 1_000_000_000 && c.edit_success_lower_ci >= 1_000_000_000 ==> relaxes_guard(
            c,
        ),
        c.structural == 0 && c.edit_success_lower_ci == 0 ==> !relaxes_guard(c),
        c.structural >= 1_000_000_000 && c.semantic_lower_ci >= 1_000_000_000 ==> relaxes_zone(c),
        c.structural == 0 && c.semantic_lower_ci == 0 ==> !relaxes_zone(c),
        clause != SemanticInvariantClause::EditSafety && clause
            != SemanticInvariantClause::TouchContract && clause
            != SemanticInvariantClause::MacroRegionSafety ==> !overrides(clause, c),
        c.general_trust == 0 ==> !overrides(clause, c),
{
    lemma_interp_bounds(c.stable_model_prob, 850_000_000, 650_000_000, 500_000_000);
    lemma_interp_bounds(c.stable_model_prob, 900_000_000, 700_000_000, 550_000_000);
}

} // verus!
