//! What retries have taught, merged from the states of several workers.
//!
//! Averages are fixed-point numbers in billionths.
use vstd::prelude::*;

use crate::names::NameMap;
use crate::text;
use crate::text::decimal_of_wide;

verus! {

/// The version of the state's layout.
pub const STATE_SCHEMA_VERSION: u32 = 2;

/// How a strategy has done.
#[derive(Clone, Copy, Debug, PartialEq, Eq, Structural)]
pub struct StrategyStats {
    pub attempts: u64,
    pub successes: u64,
    pub ema_success: u32,
}

/// The limits within which the bonus is tuned.
#[derive(Clone, Copy, Debug, PartialEq, Eq, Structural)]
pub struct RetryStrategyOptimizerConfig {
    pub auto_tune_min_bonus: i32,
    pub auto_tune_max_bonus_cap: i32,
}

/// A sum that stops at the largest number there is.
pub open spec fn capped_sum(a: u64, b: u64) -> u64 {
    if a + b > u64::MAX {
        u64::MAX
    } else {
        (a + b) as u64
    }
}

/// The average of two values by their weights, rounded down. Without weight it
/// is zero.
pub open spec fn average(a: u32, a_weight: u64, b: u32, b_weight: u64) -> u32 {
    let total = capped_sum(a_weight, b_weight);
    if total == 0 {
        0
    } else {
        let mean = (a * a_weight + b * b_weight) / (total as int);
        if mean > u32::MAX {
            u32::MAX
        } else {
            mean as u32
        }
    }
}

/// The statistics of a strategy that has not been tried.
pub open spec fn untried() -> StrategyStats {
    StrategyStats { attempts: 0, successes: 0, ema_success: 0 }
}

/// The statistics of two workers together.
pub open spec fn merged_stats(a: StrategyStats, b: StrategyStats) -> StrategyStats {
    StrategyStats {
        attempts: capped_sum(a.attempts, b.attempts),
        successes: capped_sum(a.successes, b.successes),
        ema_success: average(a.ema_success, a.attempts, b.ema_success, b.attempts),
    }
}

/// The statistics by strategy of two workers together. A strategy that came
/// with the second worker is merged, even into one that was not tried.
pub open spec fn merged_map(
    a: Map<Seq<char>, StrategyStats>,
    b: Map<Seq<char>, StrategyStats>,
) -> Map<Seq<char>, StrategyStats> {
    Map::new(
        |k: Seq<char>| a.dom().contains(k) || b.dom().contains(k),
        |k: Seq<char>|
            if b.dom().contains(k) {
                merged_stats(
                    if a.dom().contains(k) {
                        a[k]
                    } else {
                        untried()
                    },
                    b[k],
                )
            } else {
                a[k]
            },
    )
}

/// The statistics by context and strategy of two workers together.
pub open spec fn merged_contexts(
    a: Map<Seq<char>, Map<Seq<char>, StrategyStats>>,
    b: Map<Seq<char>, Map<Seq<char>, StrategyStats>>,
) -> Map<Seq<char>, Map<Seq<char>, StrategyStats>> {
    Map::new(
        |k: Seq<char>| a.dom().contains(k) || b.dom().contains(k),
        |k: Seq<char>|
            if b.dom().contains(k) {
                merged_map(
                    if a.dom().contains(k) {
                        a[k]
                    } else {
                        Map::empty()
                    },
                    b[k],
                )
            } else {
                a[k]
            },
    )
}

/// The limits of the bonus: none is below zero, and the upper one is at least
/// one and no less than the lower.
pub open spec fn bonus_bounds(config: RetryStrategyOptimizerConfig) -> (int, int) {
    let low: int = if config.auto_tune_min_bonus > 0 {
        config.auto_tune_min_bonus as int
    } else {
        0
    };
    let floor = if low > 1 {
        low
    } else {
        1
    };
    let high = if config.auto_tune_max_bonus_cap > floor {
        config.auto_tune_max_bonus_cap as int
    } else {
        floor
    };
    (low, high)
}

/// A number brought within limits.
pub open spec fn clamped(n: int, bounds: (int, int)) -> int {
    if n < bounds.0 {
        bounds.0
    } else if n > bounds.1 {
        bounds.1
    } else {
        n
    }
}

/// The average of two bonuses by their weights, to the nearest whole.
pub open spec fn average_bonus(a: i32, a_weight: u64, b: i32, b_weight: u64) -> int {
    let total = capped_sum(a_weight, b_weight);
    if total == 0 {
        0
    } else {
        (2 * (a * a_weight + b * b_weight) + total) / (2 * total as int)
    }
}

/// The statistics by context and strategy.
#[derive(Debug)]
pub struct ContextTable {
    slots: NameMap<usize>,
    tables: Vec<NameMap<StrategyStats>>,
}

impl View for ContextTable {
    type V = Map<Seq<char>, Map<Seq<char>, StrategyStats>>;

    closed spec fn view(&self) -> Map<Seq<char>, Map<Seq<char>, StrategyStats>> {
        Map::new(
            |k: Seq<char>| self.slots@.dom().contains(k),
            |k: Seq<char>| self.tables@[self.slots@[k] as int]@,
        )
    }
}

impl ContextTable {
    #[verifier::type_invariant]
    spec fn one_table_each(&self) -> bool {
        &&& forall|k: Seq<char>| #[trigger]
            self.slots@.dom().contains(k) ==> self.slots@[k] < self.tables@.len()
        &&& forall|a: Seq<char>, b: Seq<char>|
            self.slots@.dom().contains(a) && self.slots@.dom().contains(b) && a != b
                ==> #[trigger] self.slots@[a] != #[trigger] self.slots@[b]
    }

    /// The contexts in the order in which they came.
    pub closed spec fn names(&self) -> Seq<Seq<char>> {
        self.slots.names()
    }

    /// A table without contexts.
    pub fn new() -> (r: ContextTable)
        ensures
            r@ == Map::<Seq<char>, Map<Seq<char>, StrategyStats>>::empty(),
    {
        ContextTable { slots: NameMap::new(), tables: Vec::new() }
    }

    /// How many contexts there are.
    pub fn len(&self) -> (n: usize)
        ensures
            n == self.names().len(),
            self.names().to_set() == self@.dom(),
            self.names().no_duplicates(),
    {
        let n = self.slots.len();
        assert(self@.dom() =~= self.slots@.dom());
        n
    }

    /// One of the contexts.
    pub fn name(&self, i: usize) -> (r: &str)
        requires
            i < self.names().len(),
        ensures
            r@ == self.names()[i as int],
    {
        self.slots.name(i)
    }

    /// The statistics of a context.
    pub fn get(&self, context: &str) -> (r: Option<&NameMap<StrategyStats>>)
        ensures
            match r {
                Some(map) => self@.dom().contains(context@) && map@ == self@[context@],
                None => !self@.dom().contains(context@),
            },
    {
        proof {
            use_type_invariant(self);
        }
        match self.slots.get(context) {
            Some(slot) => {
                assert(self.slots@.dom().contains(context@));
                Some(&self.tables[slot])
            },
            None => None,
        }
    }

    /// The table in which a context has the given statistics.
    pub fn with(self, context: &str, map: NameMap<StrategyStats>) -> (r: ContextTable)
        ensures
            r@ == self@.insert(context@, map@),
    {
        proof {
            use_type_invariant(&self);
        }
        let ghost was = self;
        let place = self.slots.get(context);
        let slots = self.slots;
        let mut tables = self.tables;
        match place {
            Some(slot) => {
                assert(was.slots@.dom().contains(context@));
                tables.set(slot, map);
                let r = ContextTable { slots, tables };
                proof {
                    assert(r@ =~= was@.insert(context@, map@)) by {
                        assert forall|k: Seq<char>| r@.dom().contains(k) implies r@[k]
                            == was@.insert(context@, map@)[k] by {
                            if k != context@ {
                                assert(was.slots@[k] != was.slots@[context@]);
                                assert(was.slots@[k] < was.tables@.len());
                            }
                        }
                    }
                }
                r
            },
            None => {
                let slot: usize = tables.len();
                tables.push(map);
                let slots = slots.put(context, slot);
                assert(slots@ == was.slots@.insert(context@, slot));
                assert forall|a: Seq<char>, b: Seq<char>|
                    slots@.dom().contains(a) && slots@.dom().contains(b) && a
                        != b implies #[trigger] slots@[a] != #[trigger] slots@[b] by {
                    if a != context@ {
                        assert(was.slots@.dom().contains(a));
                        assert(was.slots@[a] < was.tables@.len());
                    }
                    if b != context@ {
                        assert(was.slots@.dom().contains(b));
                        assert(was.slots@[b] < was.tables@.len());
                    }
                }
                assert forall|k: Seq<char>| #[trigger] slots@.dom().contains(k) implies slots@[k]
                    < tables@.len() by {
                    if k != context@ {
                        assert(was.slots@.dom().contains(k));
                    }
                }
                let r = ContextTable { slots, tables };
                proof {
                    assert(r@ =~= was@.insert(context@, map@)) by {
                        assert forall|k: Seq<char>| r@.dom().contains(k) implies r@[k]
                            == was@.insert(context@, map@)[k] by {
                            if k != context@ {
                                assert(was.slots@.dom().contains(k));
                                assert(was.slots@[k] < was.tables@.len());
                            }
                        }
                    }
                }
                r
            },
        }
    }
}

/// What retries have taught so far.
#[derive(Debug)]
pub struct PersistedRetryStrategyState {
    pub schema_version: u32,
    pub total_observations: u64,
    pub global: NameMap<StrategyStats>,
    pub by_context: ContextTable,
    pub ema_retry_success: u32,
    pub tuned_max_bonus: i32,
    pub auto_tune_updates: u64,
    pub last_updated_unix_ms: u64,
}

/// The contents of a state.
#[verifier::ext_equal]
pub ghost struct RetryStateView {
    pub schema_version: u32,
    pub total_observations: u64,
    pub global: Map<Seq<char>, StrategyStats>,
    pub by_context: Map<Seq<char>, Map<Seq<char>, StrategyStats>>,
    pub ema_retry_success: u32,
    pub tuned_max_bonus: int,
    pub auto_tune_updates: u64,
    pub last_updated_unix_ms: u64,
}

impl View for PersistedRetryStrategyState {
    type V = RetryStateView;

    open spec fn view(&self) -> RetryStateView {
        RetryStateView {
            schema_version: self.schema_version,
            total_observations: self.total_observations,
            global: self.global@,
            by_context: self.by_context@,
            ema_retry_success: self.ema_retry_success,
            tuned_max_bonus: self.tuned_max_bonus as int,
            auto_tune_updates: self.auto_tune_updates,
            last_updated_unix_ms: self.last_updated_unix_ms,
        }
    }
}

/// A state that has seen nothing.
pub open spec fn fresh() -> RetryStateView {
    RetryStateView {
        schema_version: STATE_SCHEMA_VERSION,
        total_observations: 0,
        global: Map::empty(),
        by_context: Map::empty(),
        ema_retry_success: 0,
        tuned_max_bonus: 0,
        auto_tune_updates: 0,
        last_updated_unix_ms: 0,
    }
}

impl Default for PersistedRetryStrategyState {
    fn default() -> (r: Self)
        ensures
            r@ == fresh(),
    {
        PersistedRetryStrategyState {
            schema_version: STATE_SCHEMA_VERSION,
            total_observations: 0,
            global: NameMap::new(),
            by_context: ContextTable::new(),
            ema_retry_success: 0,
            tuned_max_bonus: 0,
            auto_tune_updates: 0,
            last_updated_unix_ms: 0,
        }
    }
}

/// What a state file held.
#[derive(Debug)]
pub enum StateFile {
    Missing,
    /// The file could not be decoded, and why.
    Broken(String),
    Decoded(PersistedRetryStrategyState),
}

/// The states of two workers together.
pub open spec fn merged(
    a: RetryStateView,
    b: RetryStateView,
    config: RetryStrategyOptimizerConfig,
) -> RetryStateView {
    RetryStateView {
        schema_version: a.schema_version,
        total_observations: capped_sum(a.total_observations, b.total_observations),
        global: merged_map(a.global, b.global),
        by_context: merged_contexts(a.by_context, b.by_context),
        ema_retry_success: average(
            a.ema_retry_success,
            a.total_observations,
            b.ema_retry_success,
            b.total_observations,
        ),
        tuned_max_bonus: clamped(
            average_bonus(
                a.tuned_max_bonus as i32,
                a.total_observations,
                b.tuned_max_bonus as i32,
                b.total_observations,
            ),
            bonus_bounds(config),
        ),
        auto_tune_updates: capped_sum(a.auto_tune_updates, b.auto_tune_updates),
        last_updated_unix_ms: if a.last_updated_unix_ms > b.last_updated_unix_ms {
            a.last_updated_unix_ms
        } else {
            b.last_updated_unix_ms
        },
    }
}

/// A state after the workers' states were merged into it in order. A worker
/// that observed nothing is passed over.
pub open spec fn merged_all(
    target: RetryStateView,
    shards: Seq<PersistedRetryStrategyState>,
    config: RetryStrategyOptimizerConfig,
) -> RetryStateView
    decreases shards.len(),
{
    if shards.len() == 0 {
        target
    } else {
        let before = merged_all(target, shards.drop_last(), config);
        if shards.last().total_observations == 0 {
            before
        } else {
            merged(before, shards.last()@, config)
        }
    }
}

/// Whether some worker observed something.
pub open spec fn any_observed(shards: Seq<PersistedRetryStrategyState>) -> bool {
    exists|i: int| 0 <= i < shards.len() && (#[trigger] shards[i]).total_observations != 0
}

fn add_capped(a: u64, b: u64) -> (r: u64)
    ensures
        r == capped_sum(a, b),
{
    if b > u64::MAX - a {
        u64::MAX
    } else {
        a + b
    }
}

fn weighted_average(a: u32, a_weight: u64, b: u32, b_weight: u64) -> (r: u32)
    ensures
        r == average(a, a_weight, b, b_weight),
{
    let total = add_capped(a_weight, b_weight);
    if total == 0 {
        return 0;
    }
    assert(0 <= a as u128 * a_weight as u128 <= 0xffff_ffffu128 * 0xffff_ffff_ffff_ffffu128)
        by (nonlinear_arith)
        requires
            0 <= a <= 0xffff_ffffu128,
            0 <= a_weight <= 0xffff_ffff_ffff_ffffu128,
    ;
    assert(0 <= b as u128 * b_weight as u128 <= 0xffff_ffffu128 * 0xffff_ffff_ffff_ffffu128)
        by (nonlinear_arith)
        requires
            0 <= b <= 0xffff_ffffu128,
            0 <= b_weight <= 0xffff_ffff_ffff_ffffu128,
    ;
    let mean: u128 = (a as u128 * a_weight as u128 + b as u128 * b_weight as u128) / total as u128;
    if mean > u32::MAX as u128 {
        u32::MAX
    } else {
        mean as u32
    }
}

fn merge_bonus(
    a: i32,
    a_weight: u64,
    b: i32,
    b_weight: u64,
    low: i32,
    high: i32,
) -> (r: i32)
    requires
        0 <= low <= high,
    ensures
        r == clamped(average_bonus(a, a_weight, b, b_weight), (low as int, high as int)),
{
    let total = add_capped(a_weight, b_weight);
    if total == 0 {
        return clamp_bonus(0, low, high);
    }
    assert(-0x8000_0000i128 * 0xffff_ffff_ffff_ffffi128 <= a as i128 * a_weight as i128
        <= 0x8000_0000i128 * 0xffff_ffff_ffff_ffffi128) by (nonlinear_arith)
        requires
            -0x8000_0000i128 <= a <= 0x8000_0000i128,
            0 <= a_weight <= 0xffff_ffff_ffff_ffffi128,
    ;
    assert(-0x8000_0000i128 * 0xffff_ffff_ffff_ffffi128 <= b as i128 * b_weight as i128
        <= 0x8000_0000i128 * 0xffff_ffff_ffff_ffffi128) by (nonlinear_arith)
        requires
            -0x8000_0000i128 <= b <= 0x8000_0000i128,
            0 <= b_weight <= 0xffff_ffff_ffff_ffffi128,
    ;
    let top: i128 = 2 * (a as i128 * a_weight as i128 + b as i128 * b_weight as i128)
        + total as i128;
    let bottom: i128 = 2 * total as i128;
    if top < 0 {
        assert(top as int / bottom as int <= -1) by (nonlinear_arith)
            requires
                top < 0,
                bottom > 0,
        ;
        return low;
    }
    let mean: i128 = top / bottom;
    if mean > high as i128 {
        high
    } else if mean < low as i128 {
        low
    } else {
        mean as i32
    }
}

fn clamp_bonus(n: i32, low: i32, high: i32) -> (r: i32)
    requires
        low <= high,
    ensures
        r == clamped(n as int, (low as int, high as int)),
{
    if n < low {
        low
    } else if n > high {
        high
    } else {
        n
    }
}

fn copy_map(map: &NameMap<StrategyStats>) -> (r: NameMap<StrategyStats>)
    ensures
        r@ == map@,
{
    let n = map.len();
    let mut r: NameMap<StrategyStats> = NameMap::new();
    let ghost names = map.names();
    let mut i: usize = 0;
    while i < n
        invariant
            i <= n,
            n == names.len(),
            names == map.names(),
            names.to_set() == map@.dom(),
            r@ == map@.restrict(names.take(i as int).to_set()),
        decreases n - i,
    {
        let name = map.name(i);
        proof {
            lemma_taken(names, i as int);
            assert(names.contains(name@));
            assert(map@.dom().contains(name@));
        }
        if let Some(stats) = map.get(name) {
            r = r.put(name, stats);
        }
        i = i + 1;
        assert(r@ =~= map@.restrict(names.take(i as int).to_set()));
    }
    assert(names.take(n as int) =~= names);
    assert(r@ =~= map@);
    r
}

proof fn lemma_taken(names: Seq<Seq<char>>, i: int)
    requires
        0 <= i < names.len(),
    ensures
        names.take(i + 1).to_set() == names.take(i).to_set().insert(names[i]),
{
    let more = names.take(i + 1);
    let less = names.take(i);
    assert forall|x: Seq<char>| more.to_set().contains(x) <==> less.to_set().insert(
        names[i],
    ).contains(x) by {
        if more.contains(x) && x != names[i] {
            let k = choose|k: int| 0 <= k < more.len() && more[k] == x;
            assert(less[k] == x);
        }
        if less.contains(x) {
            let k = choose|k: int| 0 <= k < less.len() && less[k] == x;
            assert(more[k] == x);
        }
        assert(more[i] == names[i]);
    }
    assert(more.to_set() =~= less.to_set().insert(names[i]));
}

/// Merges the states of workers.
pub struct RetryStrategyOptimizer;

impl RetryStrategyOptimizer {
    /// The state to go on with, and why a file is put aside: one that cannot be
    /// decoded, or has another layout, is, and a fresh state takes its place.
    pub fn load_state(file: StateFile) -> (r: (PersistedRetryStrategyState, Option<String>))
        ensures
            match file {
                StateFile::Missing => r.0@ == fresh() && r.1 is None,
                StateFile::Broken(error) => r.0@ == fresh() && r.1 is Some && r.1->Some_0@
                    == "decode_failed: "@ + error@,
                StateFile::Decoded(state) => if state.schema_version == STATE_SCHEMA_VERSION {
                    r.0@ == state@ && r.1 is None
                } else {
                    r.0@ == fresh() && r.1 is Some && r.1->Some_0@
                        == "schema_mismatch expected=2 found="@ + text::decimal(
                        state.schema_version as nat,
                    )
                },
            },
    {
        match file {
            StateFile::Missing => (PersistedRetryStrategyState::default(), None),
            StateFile::Broken(error) => {
                let mut reason = "decode_failed: ".to_owned();
                reason.append(error.as_str());
                (PersistedRetryStrategyState::default(), Some(reason))
            },
            StateFile::Decoded(state) => {
                if state.schema_version == STATE_SCHEMA_VERSION {
                    return (state, None);
                }
                let found = decimal_of_wide(state.schema_version as u64);
                let mut reason = "schema_mismatch expected=2 found=".to_owned();
                reason.append(found.as_str());
                (PersistedRetryStrategyState::default(), Some(reason))
            },
        }
    }

    /// The name under which a file is put aside.
    pub fn quarantine_name(file_name: Option<&str>, unix_ms: u64) -> (r: String)
        ensures
            r@ == (match file_name {
                Some(name) => name@,
                None => "retry_strategy_optimizer_state.bin"@,
            }) + ".corrupt."@ + text::decimal(unix_ms as nat),
    {
        let name = match file_name {
            Some(name) => name,
            None => "retry_strategy_optimizer_state.bin",
        };
        let mut r = name.to_owned();
        r.append(".corrupt.");
        let time = decimal_of_wide(unix_ms);
        r.append(time.as_str());
        r
    }

    /// The limits of the bonus.
    pub fn bonus_bounds_for_config(config: &RetryStrategyOptimizerConfig) -> (r: (i32, i32))
        ensures
            r.0 == bonus_bounds(*config).0,
            r.1 == bonus_bounds(*config).1,
            0 <= r.0 <= r.1,
            1 <= r.1,
    {
        let low: i32 = if config.auto_tune_min_bonus > 0 {
            config.auto_tune_min_bonus
        } else {
            0
        };
        let floor: i32 = if low > 1 {
            low
        } else {
            1
        };
        let high: i32 = if config.auto_tune_max_bonus_cap > floor {
            config.auto_tune_max_bonus_cap
        } else {
            floor
        };
        (low, high)
    }

    /// The statistics by strategy of two workers together.
    pub fn merge_strategy_map(
        target: &NameMap<StrategyStats>,
        incoming: &NameMap<StrategyStats>,
    ) -> (r: NameMap<StrategyStats>)
        ensures
            r@ == merged_map(target@, incoming@),
    {
        let mut r = copy_map(target);
        let n = incoming.len();
        let ghost names = incoming.names();
        assert(names.take(0).to_set() =~= Set::empty());
        assert(r@ =~= merged_map(target@, incoming@.restrict(names.take(0).to_set())));
        let mut i: usize = 0;
        while i < n
            invariant
                i <= n,
                n == names.len(),
                names == incoming.names(),
                names.no_duplicates(),
                names.to_set() == incoming@.dom(),
                r@ == merged_map(target@, incoming@.restrict(names.take(i as int).to_set())),
            decreases n - i,
        {
            let name = incoming.name(i);
            proof {
                lemma_taken(names, i as int);
                assert(names.contains(name@));
                assert(incoming@.dom().contains(name@));
                if names.take(i as int).contains(name@) {
                    let k = choose|k: int|
                        0 <= k < names.take(i as int).len() && names.take(i as int)[k] == name@;
                    assert(names[k] == names[i as int]);
                }
            }
            let ghost before = r@;
            if let Some(stats) = incoming.get(name) {
                let held = match target.get(name) {
                    Some(s) => s,
                    None => StrategyStats { attempts: 0, successes: 0, ema_success: 0 },
                };
                let both = StrategyStats {
                    attempts: add_capped(held.attempts, stats.attempts),
                    successes: add_capped(held.successes, stats.successes),
                    ema_success: weighted_average(
                        held.ema_success,
                        held.attempts,
                        stats.ema_success,
                        stats.attempts,
                    ),
                };
                r = r.put(name, both);
            }
            i = i + 1;
            assert(r@ =~= merged_map(target@, incoming@.restrict(names.take(i as int).to_set())));
        }
        assert(names.take(n as int) =~= names);
        assert(incoming@.restrict(names.to_set()) =~= incoming@);
        r
    }

    /// The statistics by context and strategy of two workers together.
    fn merge_contexts(target: ContextTable, incoming: &ContextTable) -> (r: ContextTable)
        ensures
            r@ == merged_contexts(target@, incoming@),
    {
        let ghost was = target@;
        let mut r = target;
        let n = incoming.len();
        let ghost names = incoming.names();
        assert(names.take(0).to_set() =~= Set::empty());
        assert(r@ =~= merged_contexts(was, incoming@.restrict(names.take(0).to_set())));
        let mut i: usize = 0;
        while i < n
            invariant
                i <= n,
                n == names.len(),
                names == incoming.names(),
                names.no_duplicates(),
                names.to_set() == incoming@.dom(),
                r@ == merged_contexts(was, incoming@.restrict(names.take(i as int).to_set())),
            decreases n - i,
        {
            let name = incoming.name(i);
            proof {
                lemma_taken(names, i as int);
                assert(names.contains(name@));
                assert(incoming@.dom().contains(name@));
                if names.take(i as int).contains(name@) {
                    let k = choose|k: int|
                        0 <= k < names.take(i as int).len() && names.take(i as int)[k] == name@;
                    assert(names[k] == names[i as int]);
                }
            }
            if let Some(map) = incoming.get(name) {
                let both = match r.get(name) {
                    Some(held) => Self::merge_strategy_map(held, map),
                    None => {
                        let held: NameMap<StrategyStats> = NameMap::new();
                        Self::merge_strategy_map(&held, map)
                    },
                };
                r = r.with(name, both);
            }
            i = i + 1;
            assert(r@ =~= merged_contexts(was, incoming@.restrict(names.take(i as int).to_set())));
        }
        assert(names.take(n as int) =~= names);
        assert(incoming@.restrict(names.to_set()) =~= incoming@);
        r
    }

    /// The states of two workers together.
    pub fn merge_states(
        base: PersistedRetryStrategyState,
        incoming: &PersistedRetryStrategyState,
        config: &RetryStrategyOptimizerConfig,
    ) -> (r: PersistedRetryStrategyState)
        ensures
            r@ == merged(base@, incoming@, *config),
    {
        let (low, high) = Self::bonus_bounds_for_config(config);
        let global = Self::merge_strategy_map(&base.global, &incoming.global);
        let by_context = Self::merge_contexts(base.by_context, &incoming.by_context);
        PersistedRetryStrategyState {
            schema_version: base.schema_version,
            total_observations: add_capped(base.total_observations, incoming.total_observations),
            global,
            by_context,
            ema_retry_success: weighted_average(
                base.ema_retry_success,
                base.total_observations,
                incoming.ema_retry_success,
                incoming.total_observations,
            ),
            tuned_max_bonus: merge_bonus(
                base.tuned_max_bonus,
                base.total_observations,
                incoming.tuned_max_bonus,
                incoming.total_observations,
                low,
                high,
            ),
            auto_tune_updates: add_capped(base.auto_tune_updates, incoming.auto_tune_updates),
            last_updated_unix_ms: if base.last_updated_unix_ms > incoming.last_updated_unix_ms {
                base.last_updated_unix_ms
            } else {
                incoming.last_updated_unix_ms
            },
        }
    }

    /// The state to write back after the states of the workers were merged into
    /// it. Nothing is written where no worker observed anything.
    pub fn merge_state_files(
        target: PersistedRetryStrategyState,
        shards: &[PersistedRetryStrategyState],
        config: &RetryStrategyOptimizerConfig,
    ) -> (r: Option<PersistedRetryStrategyState>)
        ensures
            r is Some <==> any_observed(shards@),
            r is Some ==> r->Some_0@ == (RetryStateView {
                schema_version: STATE_SCHEMA_VERSION,
                tuned_max_bonus: clamped(
                    merged_all(target@, shards@, *config).tuned_max_bonus,
                    bonus_bounds(*config),
                ),
                ..merged_all(target@, shards@, *config)
            }),
    {
        let ghost first = target@;
        let mut state = target;
        let mut merged_any = false;
        let mut i: usize = 0;
        while i < shards.len()
            invariant
                i <= shards.len(),
                merged_any == any_observed(shards@.take(i as int)),
                state@ == merged_all(first, shards@.take(i as int), *config),
            decreases shards.len() - i,
        {
            let shard = &shards[i];
            let ghost more = shards@.take(i + 1);
            proof {
                assert(more.drop_last() =~= shards@.take(i as int));
                assert(more[i as int] == shards@[i as int]);
                if any_observed(shards@.take(i as int)) {
                    let k = choose|k: int|
                        0 <= k < i && (#[trigger] shards@.take(i as int)[k]).total_observations
                            != 0;
                    assert(more[k].total_observations != 0);
                }
                if any_observed(more) && shards@[i as int].total_observations == 0 {
                    let k = choose|k: int|
                        0 <= k < i + 1 && (#[trigger] more[k]).total_observations != 0;
                    assert(shards@.take(i as int)[k].total_observations != 0);
                }
            }
            if shard.total_observations != 0 {
                merged_any = true;
                state = Self::merge_states(state, shard, config);
            }
            i = i + 1;
        }
        assert(shards@.take(i as int) =~= shards@);
        if !merged_any {
            return None;
        }
        let (low, high) = Self::bonus_bounds_for_config(config);
        let bonus = clamp_bonus(state.tuned_max_bonus, low, high);
        Some(
            PersistedRetryStrategyState {
                schema_version: STATE_SCHEMA_VERSION,
                tuned_max_bonus: bonus,
                ..state
            },
        )
    }
}

/// What two workers counted does not depend on which of them is merged into the
/// other.
pub proof fn lemma_counts_commute(
    a: RetryStateView,
    b: RetryStateView,
    config: RetryStrategyOptimizerConfig,
    strategy: Seq<char>,
)
    ensures
        merged(a, b, config).total_observations == merged(b, a, config).total_observations,
        merged(a, b, config).auto_tune_updates == merged(b, a, config).auto_tune_updates,
        merged(a, b, config).last_updated_unix_ms == merged(b, a, config).last_updated_unix_ms,
        merged(a, b, config).global.dom() == merged(b, a, config).global.dom(),
        merged(a, b, config).by_context.dom() == merged(b, a, config).by_context.dom(),
        a.global.dom().contains(strategy) && b.global.dom().contains(strategy) ==> {
            let x = merged(a, b, config).global[strategy];
            let y = merged(b, a, config).global[strategy];
            x.attempts == y.attempts && x.successes == y.successes
        },
{
    assert(merged_map(a.global, b.global).dom() =~= merged_map(b.global, a.global).dom());
    assert(merged_contexts(a.by_context, b.by_context).dom() =~= merged_contexts(
        b.by_context,
        a.by_context,
    ).dom());
}

/// A merged bonus is within its limits.
pub proof fn lemma_bonus_is_bounded(
    a: RetryStateView,
    b: RetryStateView,
    config: RetryStrategyOptimizerConfig,
)
    ensures
        0 <= bonus_bounds(config).0 <= merged(a, b, config).tuned_max_bonus <= bonus_bounds(
            config,
        ).1,
{
}

/// Workers that observed nothing leave a state as it was.
pub proof fn lemma_idle_workers_change_nothing(
    target: RetryStateView,
    shards: Seq<PersistedRetryStrategyState>,
    config: RetryStrategyOptimizerConfig,
)
    requires
        !any_observed(shards),
    ensures
        merged_all(target, shards, config) == target,
    decreases shards.len(),
{
    if shards.len() > 0 {
        let less = shards.drop_last();
        assert(shards[shards.len() - 1].total_observations == 0);
        if any_observed(less) {
            let k = choose|k: int| 0 <= k < less.len() && (#[trigger] less[k]).total_observations != 0;
            assert(shards[k].total_observations != 0);
        }
        lemma_idle_workers_change_nothing(target, less, config);
    }
}

/// An average lies between what it is taken of, is that of the one that has any
/// weight, and does not depend on their order.
pub proof fn lemma_average_lies_between(a: u32, a_weight: u64, b: u32, b_weight: u64)
    requires
        0 < a_weight + b_weight <= u64::MAX,
    ensures
        a <= b ==> a <= average(a, a_weight, b, b_weight) <= b,
        b <= a ==> b <= average(a, a_weight, b, b_weight) <= a,
        b_weight == 0 ==> average(a, a_weight, b, b_weight) == a,
        a_weight == 0 ==> average(a, a_weight, b, b_weight) == b,
        average(a, a_weight, b, b_weight) == average(b, b_weight, a, a_weight),
        a_weight == b_weight ==> average(a, a_weight, b, b_weight) == (a + b) / 2,
{
    let total = a_weight + b_weight;
    let sum = a * a_weight + b * b_weight;
    let low = if a <= b {
        a as int
    } else {
        b as int
    };
    let high = if a <= b {
        b as int
    } else {
        a as int
    };
    assert(low * total <= sum <= high * total) by (nonlinear_arith)
        requires
            low <= a <= high,
            low <= b <= high,
            total == a_weight + b_weight,
            sum == a * a_weight + b * b_weight,
            a_weight >= 0,
            b_weight >= 0,
    ;
    vstd::arithmetic::div_mod::lemma_div_is_ordered(low * total, sum, total);
    vstd::arithmetic::div_mod::lemma_div_is_ordered(sum, high * total, total);
    vstd::arithmetic::div_mod::lemma_div_multiples_vanish(low, total);
    vstd::arithmetic::div_mod::lemma_div_multiples_vanish(high, total);
    assert(low * total == total * low) by (nonlinear_arith);
    assert(high * total == total * high) by (nonlinear_arith);
    assert(low <= sum / total <= high);
    if b_weight == 0 {
        assert(sum == a * total) by (nonlinear_arith)
            requires
                b_weight == 0,
                total == a_weight + b_weight,
                sum == a * a_weight + b * b_weight,
        ;
        vstd::arithmetic::div_mod::lemma_div_multiples_vanish(a as int, total);
        assert(a * total == total * a) by (nonlinear_arith);
    }
    if a_weight == 0 {
        assert(sum == b * total) by (nonlinear_arith)
            requires
                a_weight == 0,
                total == a_weight + b_weight,
                sum == a * a_weight + b * b_weight,
        ;
        vstd::arithmetic::div_mod::lemma_div_multiples_vanish(b as int, total);
        assert(b * total == total * b) by (nonlinear_arith);
    }
    if a_weight == b_weight {
        let w = a_weight as int;
        assert(sum == (a + b) * w) by (nonlinear_arith)
            requires
                sum == a * a_weight + b * b_weight,
                a_weight == b_weight,
                w == a_weight,
        ;
        assert(total == 2 * w);
        vstd::arithmetic::div_mod::lemma_div_denominator(sum, w, 2);
        assert(w * 2 == total);
        vstd::arithmetic::div_mod::lemma_div_multiples_vanish((a + b) as int, w);
        assert((a + b) * w == w * (a + b)) by (nonlinear_arith);
    }
}

/// Merging adds up: what both workers observed, attempted and achieved is
/// counted once each, a strategy or context of either stays, and the later time
/// is kept.
pub proof fn lemma_merging_adds_up(
    a: RetryStateView,
    b: RetryStateView,
    config: RetryStrategyOptimizerConfig,
    strategy: Seq<char>,
    context: Seq<char>,
)
    ensures
        ({
            let m = merged(a, b, config);
            &&& a.total_observations + b.total_observations <= u64::MAX ==> m.total_observations
                == a.total_observations + b.total_observations
            &&& a.auto_tune_updates + b.auto_tune_updates <= u64::MAX ==> m.auto_tune_updates
                == a.auto_tune_updates + b.auto_tune_updates
            &&& m.last_updated_unix_ms >= a.last_updated_unix_ms && m.last_updated_unix_ms
                >= b.last_updated_unix_ms
            &&& m.last_updated_unix_ms == a.last_updated_unix_ms || m.last_updated_unix_ms
                == b.last_updated_unix_ms
            &&& m.schema_version == a.schema_version
            &&& m.global.dom().contains(strategy) <==> a.global.dom().contains(strategy)
                || b.global.dom().contains(strategy)
            &&& m.by_context.dom().contains(context) <==> a.by_context.dom().contains(context)
                || b.by_context.dom().contains(context)
            &&& a.global.dom().contains(strategy) && !b.global.dom().contains(strategy)
                ==> m.global[strategy] == a.global[strategy]
            &&& a.global.dom().contains(strategy) && b.global.dom().contains(strategy)
                && a.global[strategy].attempts + b.global[strategy].attempts <= u64::MAX
                && a.global[strategy].successes + b.global[strategy].successes <= u64::MAX ==> {
                &&& m.global[strategy].attempts == a.global[strategy].attempts
                    + b.global[strategy].attempts
                &&& m.global[strategy].successes == a.global[strategy].successes
                    + b.global[strategy].successes
            }
            &&& !a.global.dom().contains(strategy) && b.global.dom().contains(strategy) ==> {
                &&& m.global[strategy].attempts == b.global[strategy].attempts
                &&& m.global[strategy].successes == b.global[strategy].successes
            }
        }),
{
}

/// The limits of the bonus are those that are set, where they make sense.
pub proof fn lemma_limits_are_those_set(config: RetryStrategyOptimizerConfig)
    ensures
        0 <= config.auto_tune_min_bonus && 1 <= config.auto_tune_max_bonus_cap
            && config.auto_tune_min_bonus <= config.auto_tune_max_bonus_cap ==> bonus_bounds(config)
            == (config.auto_tune_min_bonus as int, config.auto_tune_max_bonus_cap as int),
        config.auto_tune_min_bonus < 0 ==> bonus_bounds(config).0 == 0,
        config.auto_tune_max_bonus_cap < config.auto_tune_min_bonus ==> bonus_bounds(config).1
            >= bonus_bounds(config).0,
{
}

} // verus!
