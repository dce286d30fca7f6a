//! What the estimates of a file's certainty set elsewhere.
//!
//! Estimates, variances and weights are fixed-point numbers in billionths.
use vstd::prelude::*;

use crate::conflict_solver::SolverTuning;
use crate::post_check::DiagnosticWeights;
use crate::proposer::StyleWeights;
use crate::semantic_contract::TransitionPenalties;

verus! {

/// How many things are estimated: structure, semantics, coverage, richness and
/// how often edits succeed.
pub const NUM_DIMS: usize = 5;

/// The batch of lines in a file whose structure is doubtful.
pub const SMALL_BATCH: usize = 512;

/// The estimates of a file and how far they may be off.
#[derive(Clone, Copy, Debug, PartialEq, Eq)]
pub struct CertaintyFilterState {
    pub estimates: [u32; 5],
    pub variances: [u32; 5],
    pub observation_count: u32,
}

/// A number brought within limits.
pub open spec fn clamped(n: int, low: int, high: int) -> int {
    if n < low {
        low
    } else if n > high {
        high
    } else {
        n
    }
}

/// A quotient to the nearest whole; halves go up.
pub open spec fn rounded(n: int, d: int) -> int {
    (2 * n + d) / (2 * d)
}

/// Whether a number is the root of another, rounded down.
pub open spec fn is_root(r: int, n: int) -> bool {
    0 <= r && r * r <= n < (r + 1) * (r + 1)
}

/// A number has one root.
pub proof fn lemma_one_root(a: int, b: int, n: int)
    requires
        is_root(a, n),
        is_root(b, n),
    ensures
        a == b,
{
    if a < b {
        assert((a + 1) * (a + 1) <= b * b) by (nonlinear_arith)
            requires
                0 <= a < b,
        ;
    } else if b < a {
        assert((b + 1) * (b + 1) <= a * a) by (nonlinear_arith)
            requires
                0 <= b < a,
        ;
    }
}

/// The root of a number, rounded down.
fn root(n: u64) -> (r: u64)
    requires
        n < 0x4000_0000_0000_0000,
    ensures
        is_root(r as int, n as int),
        r < 0x8000_0000,
{
    let mut low: u64 = 0;
    let mut high: u64 = 0x8000_0000;
    assert(0x8000_0000 * 0x8000_0000 == 0x4000_0000_0000_0000int) by (nonlinear_arith);
    while high - low > 1
        invariant
            low < high <= 0x8000_0000,
            low * low <= n,
            n < high * high,
        decreases high - low,
    {
        let mid: u64 = low + (high - low) / 2;
        assert(0 <= mid * mid <= 0x4000_0000_0000_0000) by (nonlinear_arith)
            requires
                0 <= mid <= 0x8000_0000,
        ;
        if mid * mid <= n {
            low = mid;
        } else {
            high = mid;
        }
    }
    assert(high == low + 1);
    low
}

fn within(n: u64, low: u64, high: u64) -> (r: u64)
    requires
        low <= high,
    ensures
        r == clamped(n as int, low as int, high as int),
{
    if n < low {
        low
    } else if n > high {
        high
    } else {
        n
    }
}

/// What a regression costs where semantics and edits are estimated as
/// `certainty` in sum, and the default costs `base`.
pub open spec fn penalty(certainty: int, base: int) -> int {
    rounded(certainty * base, 1_350_000_000)
}

fn penalty_of(certainty: u64, base: u64) -> (r: u32)
    requires
        certainty <= 2_000_000_000,
        base <= 90,
    ensures
        r == penalty(certainty as int, base as int),
        r <= 134,
{
    assert(0 <= certainty * base <= 180_000_000_000) by (nonlinear_arith)
        requires
            0 <= certainty <= 2_000_000_000,
            0 <= base <= 90,
    ;
    ((2 * (certainty * base) + 1_350_000_000) / 2_700_000_000) as u32
}

impl CertaintyFilterState {
    /// Whether no estimate is above one.
    pub open spec fn valid(self) -> bool {
        forall|i: int| 0 <= i < NUM_DIMS ==> self.estimates@[i] <= 1_000_000_000
    }

    /// The estimates of a file that has not been seen.
    pub fn new() -> (r: Self)
        ensures
            r.valid(),
            r.estimates@ == seq![
                850_000_000u32,
                500_000_000,
                500_000_000,
                500_000_000,
                850_000_000,
            ],
            r.variances@ == seq![
                50_000_000u32,
                100_000_000,
                100_000_000,
                100_000_000,
                50_000_000,
            ],
            r.observation_count == 0,
    {
        CertaintyFilterState {
            estimates: [850_000_000, 500_000_000, 500_000_000, 500_000_000, 850_000_000],
            variances: [50_000_000, 100_000_000, 100_000_000, 100_000_000, 50_000_000],
            observation_count: 0,
        }
    }

    /// The variance of an estimate.
    pub fn variance(&self, dim: usize) -> (r: u32)
        requires
            dim < NUM_DIMS,
        ensures
            r == self.variances@[dim as int],
    {
        self.variances[dim]
    }

    /// How far an estimate may be off: the root of its variance.
    pub fn stddev(&self, dim: usize) -> (r: u32)
        requires
            dim < NUM_DIMS,
        ensures
            is_root(r as int, self.variances@[dim as int] * 1_000_000_000),
            r < 0x8000_0000,
    {
        root(self.variances[dim] as u64 * 1_000_000_000) as u32
    }

    /// What a doubtful success rate takes from confidence.
    pub fn trust_deficit_penalty(&self) -> (r: i64)
        ensures
            self.observation_count == 0 ==> r == 0,
            self.observation_count > 0 ==> exists|deviation: int| #[trigger]
                is_root(deviation, self.variances@[4] * 1_000_000_000) && r == clamped(
                    deviation,
                    0,
                    300_000_000,
                ),
    {
        if self.observation_count == 0 {
            return 0;
        }
        let deviation = self.stddev(4);
        assert(is_root(deviation as int, self.variances@[4] * 1_000_000_000));
        if deviation > 300_000_000 {
            300_000_000
        } else {
            deviation as i64
        }
    }

    /// What doubtful semantics take from confidence.
    pub fn confidence_penalty(&self) -> (r: i64)
        ensures
            self.observation_count == 0 ==> r == 0,
            self.observation_count > 0 ==> exists|deviation: int| #[trigger]
                is_root(deviation, self.variances@[1] * 1_000_000_000) && r == clamped(
                    deviation,
                    0,
                    300_000_000,
                ),
    {
        if self.observation_count == 0 {
            return 0;
        }
        let deviation = self.stddev(1);
        assert(is_root(deviation as int, self.variances@[1] * 1_000_000_000));
        if deviation > 300_000_000 {
            300_000_000
        } else {
            deviation as i64
        }
    }

    /// How much further edits reach in a rich file.
    pub fn richness_multiplier(&self) -> (r: u32)
        requires
            self.valid(),
        ensures
            r == clamped(2 * self.estimates@[3], 500_000_000, 3_000_000_000),
    {
        within(2 * self.estimates[3] as u64, 500_000_000, 3_000_000_000) as u32
    }

    /// How far edits reach in a file as rich as this one, in lines.
    pub fn richness_radius(&self) -> (r: usize)
        requires
            self.valid(),
        ensures
            r == clamped(
                rounded(clamped(2 * self.estimates@[3], 500_000_000, 3_000_000_000), 1_000_000_000),
                1,
                3,
            ),
    {
        let reach: u64 = (2 * self.richness_multiplier() as u64 + 1_000_000_000) / 2_000_000_000;
        within(reach, 1, 3) as usize
    }

    /// What the style of an edit is worth.
    pub fn style_gain_weights(&self) -> (r: StyleWeights)
        requires
            self.valid(),
        ensures
            r.base == self.estimates@[4] * 12 / 17,
            r.whitespace_bonus == self.estimates@[4] * 8 / 17,
            r.delta_bonus == self.estimates@[4] * 4 / 17,
    {
        let e: u64 = self.estimates[4] as u64;
        StyleWeights {
            base: (e * 12 / 17) as i32,
            whitespace_bonus: (e * 8 / 17) as i32,
            delta_bonus: (e * 4 / 17) as i32,
        }
    }

    /// What edits that steady a file are worth, by how risky they are.
    pub fn stabilizer_bonus(&self, risk_tier_index: usize) -> (r: u32)
        requires
            self.valid(),
        ensures
            r == (match risk_tier_index {
                0usize => self.estimates@[0] as int * 2 / 17,
                1usize => self.estimates@[0] as int / 17,
                _ => 0,
            }),
    {
        match risk_tier_index {
            0 => (self.estimates[0] as u64 * 2 / 17) as u32,
            1 => self.estimates[0] / 17,
            _ => 0,
        }
    }

    /// What a narrow scope is worth, by how risky the edit is.
    pub fn scope_bonus(&self, risk_tier_index: usize) -> (r: u32)
        requires
            self.valid(),
        ensures
            r == (if risk_tier_index == 0 {
                self.estimates@[2] as int * 16 / 100
            } else {
                self.estimates@[2] as int * 8 / 100
            }),
    {
        if risk_tier_index == 0 {
            (self.estimates[2] as u64 * 16 / 100) as u32
        } else {
            (self.estimates[2] as u64 * 8 / 100) as u32
        }
    }

    /// What risk costs: more the less often edits succeed.
    pub fn risk_penalty(&self, risk_tier_index: usize) -> (r: u32)
        requires
            self.valid(),
        ensures
            r == (match risk_tier_index {
                2usize => 1_000_000_000 - self.estimates@[4],
                1usize => (1_000_000_000 - self.estimates@[4]) / 3,
                _ => 0,
            }),
    {
        let rest: u32 = 1_000_000_000 - self.estimates[4];
        match risk_tier_index {
            2 => rest,
            1 => rest / 3,
            _ => 0,
        }
    }

    /// What each range and each symbol of a footprint costs.
    pub fn footprint_weights(&self) -> (r: (u32, u32))
        ensures
            r.0 == self.variances@[3] as int / 5,
            r.1 == self.variances@[3] as int / 10,
    {
        (self.variances[3] / 5, self.variances[3] / 10)
    }

    /// Up to how many candidates all choices are tried.
    pub fn component_threshold(&self) -> (r: u8)
        requires
            self.valid(),
        ensures
            r == clamped(self.estimates@[3] as int * 32, 8_000_000_000, 64_000_000_000)
                / 1_000_000_000,
    {
        let n = within(self.estimates[3] as u64 * 32, 8_000_000_000, 64_000_000_000);
        (n / 1_000_000_000) as u8
    }

    /// How near two edits that change meaning must be to conflict.
    pub fn fuzzy_min_semantic(&self) -> (r: usize)
        ensures
            r == clamped(self.variances@[1] as int * 30, 1_000_000_000, 8_000_000_000)
                / 1_000_000_000,
    {
        let n = within(self.variances[1] as u64 * 30, 1_000_000_000, 8_000_000_000);
        (n / 1_000_000_000) as usize
    }

    /// How near two other edits must be to conflict.
    pub fn fuzzy_min_other(&self) -> (r: usize)
        ensures
            r == 1,
    {
        1
    }

    /// How candidate edits are weighed.
    pub fn solver_tuning(&self) -> (r: SolverTuning)
        requires
            self.valid(),
        ensures
            r.stabilizer_bonus_low == self.estimates@[0] as int * 2 / 17,
            r.stabilizer_bonus_medium == self.estimates@[0] as int / 17,
            r.scope_bonus_low == self.estimates@[2] as int * 16 / 100,
            r.scope_bonus_other == self.estimates@[2] as int * 8 / 100,
            r.risk_penalty_medium == (1_000_000_000 - self.estimates@[4]) / 3,
            r.risk_penalty_high == 1_000_000_000 - self.estimates@[4],
            r.range_weight == self.variances@[3] as int / 5,
            r.symbol_weight == self.variances@[3] as int / 10,
            r.component_threshold == clamped(
                self.estimates@[3] as int * 32,
                8_000_000_000,
                64_000_000_000,
            ) / 1_000_000_000,
            r.fuzzy_min_semantic == clamped(
                self.variances@[1] as int * 30,
                1_000_000_000,
                8_000_000_000,
            ) / 1_000_000_000,
            r.fuzzy_min_other == 1,
    {
        let (range_weight, symbol_weight) = self.footprint_weights();
        SolverTuning {
            stabilizer_bonus_low: self.stabilizer_bonus(0),
            stabilizer_bonus_medium: self.stabilizer_bonus(1),
            scope_bonus_low: self.scope_bonus(0),
            scope_bonus_other: self.scope_bonus(1),
            risk_penalty_medium: self.risk_penalty(1),
            risk_penalty_high: self.risk_penalty(2),
            range_weight,
            symbol_weight,
            component_threshold: self.component_threshold(),
            fuzzy_min_semantic: self.fuzzy_min_semantic(),
            fuzzy_min_other: self.fuzzy_min_other(),
        }
    }

    /// What a diagnostic of each severity weighs.
    pub fn diagnostic_weights(&self) -> (r: DiagnosticWeights)
        requires
            self.valid(),
        ensures
            ({
                let sum = self.estimates@[0] + self.estimates@[1];
                &&& r.note == 1
                &&& r.warning == rounded(sum * 20, 9_000_000_000)
                &&& r.error == rounded(sum * 160, 27_000_000_000)
                &&& r.fatal == rounded(sum * 80, 9_000_000_000)
            }),
    {
        let sum: u64 = self.estimates[0] as u64 + self.estimates[1] as u64;
        DiagnosticWeights {
            note: 1,
            warning: ((2 * (sum * 20) + 9_000_000_000) / 18_000_000_000) as u32,
            error: ((2 * (sum * 160) + 27_000_000_000) / 54_000_000_000) as u32,
            fatal: ((2 * (sum * 80) + 9_000_000_000) / 18_000_000_000) as u32,
        }
    }

    /// How many symbols may change their identity.
    pub fn identity_shift_tolerance(&self) -> (r: usize)
        ensures
            r == clamped(self.variances@[1] as int * 40, 1_000_000_000, 12_000_000_000)
                / 1_000_000_000,
    {
        let n = within(self.variances[1] as u64 * 40, 1_000_000_000, 12_000_000_000);
        (n / 1_000_000_000) as usize
    }

    /// Whether this is what each kind of semantic regression costs: more where
    /// the semantics and the success of edits are certain.
    pub open spec fn are_penalties(self, p: TransitionPenalties) -> bool {
        let certainty = self.estimates@[1] + self.estimates@[4];
        &&& p.identity == penalty(certainty, 90)
        &&& p.reference == penalty(certainty, 70)
        &&& p.usage == penalty(certainty, 55)
        &&& p.orphan == penalty(certainty, 65)
        &&& p.scope == penalty(certainty, 80)
    }

    /// What each kind of semantic regression costs.
    pub fn transition_penalties(&self) -> (r: TransitionPenalties)
        requires
            self.valid(),
        ensures
            self.are_penalties(r),
    {
        let certainty: u64 = self.estimates[1] as u64 + self.estimates[4] as u64;
        TransitionPenalties {
            identity: penalty_of(certainty, 90),
            reference: penalty_of(certainty, 70),
            usage: penalty_of(certainty, 55),
            orphan: penalty_of(certainty, 65),
            scope: penalty_of(certainty, 80),
        }
    }

    /// How confident semantics alone make an edit, in basis points.
    pub fn semantic_confidence_bp_base(&self) -> (r: u16)
        requires
            self.valid(),
        ensures
            r == clamped(self.estimates@[1] as int * 400, 50_000_000_000, 500_000_000_000)
                / 1_000_000_000,
    {
        let n = within(self.estimates[1] as u64 * 400, 50_000_000_000, 500_000_000_000);
        (n / 1_000_000_000) as u16
    }

    /// How many lines a retry takes at once: all of them where the structure of
    /// the file is well known.
    pub fn retry_batch(&self) -> (r: usize)
        ensures
            r == if self.estimates@[0] > 700_000_000 {
                usize::MAX
            } else {
                SMALL_BATCH
            },
    {
        if self.estimates[0] > 700_000_000 {
            usize::MAX
        } else {
            SMALL_BATCH
        }
    }
}

/// The limits by which edits in the same surroundings are relaxed, hardened or
/// kept short.
#[derive(Clone, Copy, Debug, PartialEq, Eq, Structural)]
pub struct ClusterLimits {
    pub relax_stability: u32,
    pub relax_uncertainty: u32,
    pub harden_stability: u32,
    pub harden_uncertainty: u32,
    pub harden_revert_rate: u32,
    pub cap1_stability: u32,
    pub cap1_reliability: u32,
    pub cap3_stability: u32,
    pub cap3_uncertainty: u32,
}

/// The limits where edits succeed as often as `success`, give or take
/// `deviation`.
pub open spec fn limits_for(success: int, deviation: int) -> (
    int,
    int,
    int,
    int,
    int,
    int,
    int,
    int,
    int,
) {
    (
        success * 16 / 17,
        deviation * 805 / 1_000,
        success * 11 / 17,
        deviation * 1_966 / 1_000,
        deviation * 983 / 1_000,
        success * 8 / 17,
        success * 6 / 17,
        success * 12 / 17,
        deviation * 15_625 / 10_000,
    )
}

impl ClusterLimits {
    /// The limits as plain numbers.
    pub open spec fn numbers(self) -> (int, int, int, int, int, int, int, int, int) {
        (
            self.relax_stability as int,
            self.relax_uncertainty as int,
            self.harden_stability as int,
            self.harden_uncertainty as int,
            self.harden_revert_rate as int,
            self.cap1_stability as int,
            self.cap1_reliability as int,
            self.cap3_stability as int,
            self.cap3_uncertainty as int,
        )
    }
}

impl CertaintyFilterState {
    /// The limits by which edits in the same surroundings are judged.
    pub fn cluster_limits(&self) -> (r: ClusterLimits)
        requires
            self.valid(),
        ensures
            exists|deviation: int| #[trigger]
                is_root(deviation, self.variances@[4] * 1_000_000_000) && r.numbers() == limits_for(
                    self.estimates@[4] as int,
                    deviation,
                ),
    {
        let e: u64 = self.estimates[4] as u64;
        let sd = self.stddev(4);
        assert(is_root(sd as int, self.variances@[4] * 1_000_000_000));
        let d: u64 = sd as u64;
        let r = ClusterLimits {
            relax_stability: (e * 16 / 17) as u32,
            relax_uncertainty: (d * 805 / 1_000) as u32,
            harden_stability: (e * 11 / 17) as u32,
            harden_uncertainty: (d * 1_966 / 1_000) as u32,
            harden_revert_rate: (d * 983 / 1_000) as u32,
            cap1_stability: (e * 8 / 17) as u32,
            cap1_reliability: (e * 6 / 17) as u32,
            cap3_stability: (e * 12 / 17) as u32,
            cap3_uncertainty: (d * 15_625 / 10_000) as u32,
        };
        assert(r.numbers() == limits_for(self.estimates@[4] as int, sd as int));
        r
    }
}

/// What a regression costs grows with the certainty, and is the default where
/// the certainty is that of a file that has not been seen.
pub proof fn lemma_certainty_makes_regressions_cost(less: int, more: int, base: int)
    requires
        0 <= less <= more,
        0 <= base,
    ensures
        penalty(less, base) <= penalty(more, base),
        penalty(1_350_000_000, base) == base,
        penalty(0, base) == 0,
{
    assert(less * base <= more * base) by (nonlinear_arith)
        requires
            0 <= less <= more,
            0 <= base,
    ;
    vstd::arithmetic::div_mod::lemma_div_is_ordered(
        2 * (less * base) + 1_350_000_000,
        2 * (more * base) + 1_350_000_000,
        2_700_000_000,
    );
}

} // verus!
