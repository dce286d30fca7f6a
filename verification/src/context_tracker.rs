//! How well each policy has done in each kind of file and block.
//!
//! A success rate is a moving average in billionths. It turns into a
//! modifier of a policy's confidence once it has been observed often enough.
use vstd::prelude::*;

use crate::file_context::SemanticScopeKind;
use crate::fuzzy_inference;
use crate::fuzzy_inference::{floor_div, kalman_interp, USABLE_OBSERVATIONS};
use crate::text;
use crate::text::{ascii_lower, chars_of, push_char, str_eq};

verus! {

/// How many policies are followed.
pub const NUM_POLICIES: usize = 16;

pub const NUM_FILE_KINDS: usize = 3;

pub const NUM_BLOCK_KINDS: usize = 6;

/// The number of rates by kind of file: one for each policy and kind.
pub const FILE_RATES: usize = 48;

/// The number of rates by kind of block: one for each policy and kind.
pub const BLOCK_RATES: usize = 96;

/// The modifier that changes nothing.
pub const NEUTRAL: u32 = 1_000_000_000;

/// How many modifiers a batch holds. Those past the policies are neutral.
pub const BATCH: usize = 24;

/// What kind of file is formatted.
#[derive(Clone, Copy, Debug, PartialEq, Eq, Structural, Hash)]
pub enum FileContextKind {
    Header,
    Implementation,
    Paired,
}

/// The place of the last dot of a name, or -1.
pub open spec fn last_dot(name: Seq<char>) -> int
    decreases name.len(),
{
    if name.len() == 0 {
        -1
    } else if name.last() == '.' {
        name.len() - 1
    } else {
        last_dot(name.drop_last())
    }
}

/// What follows the last dot of a file's name. A dot at its front starts no
/// extension.
pub open spec fn extension(name: Seq<char>) -> Seq<char> {
    if last_dot(name) <= 0 {
        Seq::empty()
    } else {
        name.skip(last_dot(name) + 1)
    }
}

/// Whether an extension in small letters is that of an implementation file.
pub open spec fn is_implementation(ext: Seq<char>) -> bool {
    ext == "c"@ || ext == "cc"@ || ext == "cpp"@ || ext == "cxx"@
}

/// The extension of a file's name, in small letters.
fn lower_extension(file_name: &str) -> (r: String)
    ensures
        r@ == text::lower_chars(extension(file_name@)),
{
    let chars = chars_of(file_name);
    let mut end: usize = chars.len();
    assert(chars@.take(chars@.len() as int) =~= chars@);
    while end > 0 && chars[end - 1] != '.'
        invariant
            end <= chars.len(),
            last_dot(chars@) == last_dot(chars@.take(end as int)),
        decreases end,
    {
        assert(chars@.take(end as int).drop_last() =~= chars@.take(end - 1));
        end = end - 1;
    }
    let mut r = String::new();
    if end <= 1 {
        assert(r@ =~= text::lower_chars(extension(file_name@)));
        return r;
    }
    assert(last_dot(chars@) == end - 1);
    let mut i: usize = end;
    while i < chars.len()
        invariant
            0 < end <= i <= chars.len(),
            r@ == text::lower_chars(chars@.subrange(end as int, i as int)),
        decreases chars.len() - i,
    {
        let c = ascii_lower(chars[i]);
        let ghost before = r@;
        push_char(&mut r, c);
        i = i + 1;
        assert(r@ =~= text::lower_chars(chars@.subrange(end as int, i as int))) by {
            assert(chars@.subrange(end as int, i as int) =~= chars@.subrange(
                end as int,
                i - 1,
            ).push(chars@[i - 1]));
        }
    }
    assert(chars@.subrange(end as int, chars@.len() as int) =~= chars@.skip(end as int));
    r
}

impl FileContextKind {
    /// The kind of a file, by the last part of its path. What has no known
    /// extension counts as a header.
    pub fn from_path(file_name: &str) -> (r: Self)
        ensures
            r == (if is_implementation(text::lower_chars(extension(file_name@))) {
                FileContextKind::Implementation
            } else {
                FileContextKind::Header
            }),
    {
        let ext = lower_extension(file_name);
        let ext = ext.as_str();
        if str_eq(ext, "c") || str_eq(ext, "cc") || str_eq(ext, "cpp") || str_eq(ext, "cxx") {
            FileContextKind::Implementation
        } else {
            FileContextKind::Header
        }
    }

    /// The number of a kind.
    pub open spec fn number(self) -> nat {
        match self {
            FileContextKind::Header => 0,
            FileContextKind::Implementation => 1,
            FileContextKind::Paired => 2,
        }
    }

    /// The number of a kind.
    pub fn index(self) -> (r: usize)
        ensures
            r == self.number(),
            r < NUM_FILE_KINDS,
    {
        match self {
            FileContextKind::Header => 0,
            FileContextKind::Implementation => 1,
            FileContextKind::Paired => 2,
        }
    }
}

/// What kind of block is edited.
#[derive(Clone, Copy, Debug, PartialEq, Eq, Structural, Hash)]
pub enum BlockContextKind {
    Namespace,
    Type,
    Function,
    Preprocessor,
    Global,
    Template,
}

impl BlockContextKind {
    /// The kind of a block, by the scope around it. An attribute is no block.
    pub fn from_scope_kind(kind: SemanticScopeKind) -> (r: Self)
        ensures
            r == (match kind {
                SemanticScopeKind::Namespace => BlockContextKind::Namespace,
                SemanticScopeKind::Type => BlockContextKind::Type,
                SemanticScopeKind::Function => BlockContextKind::Function,
                SemanticScopeKind::Preprocessor => BlockContextKind::Preprocessor,
                SemanticScopeKind::Template => BlockContextKind::Template,
                SemanticScopeKind::Attribute => BlockContextKind::Global,
            }),
    {
        match kind {
            SemanticScopeKind::Namespace => BlockContextKind::Namespace,
            SemanticScopeKind::Type => BlockContextKind::Type,
            SemanticScopeKind::Function => BlockContextKind::Function,
            SemanticScopeKind::Preprocessor => BlockContextKind::Preprocessor,
            SemanticScopeKind::Template => BlockContextKind::Template,
            SemanticScopeKind::Attribute => BlockContextKind::Global,
        }
    }

    /// The number of a kind.
    pub open spec fn number(self) -> nat {
        match self {
            BlockContextKind::Namespace => 0,
            BlockContextKind::Type => 1,
            BlockContextKind::Function => 2,
            BlockContextKind::Preprocessor => 3,
            BlockContextKind::Global => 4,
            BlockContextKind::Template => 5,
        }
    }

    /// The number of a kind.
    pub fn index(self) -> (r: usize)
        ensures
            r == self.number(),
            r < NUM_BLOCK_KINDS,
    {
        match self {
            BlockContextKind::Namespace => 0,
            BlockContextKind::Type => 1,
            BlockContextKind::Function => 2,
            BlockContextKind::Preprocessor => 3,
            BlockContextKind::Global => 4,
            BlockContextKind::Template => 5,
        }
    }
}

/// The policies that are followed, in the order of their numbers.
pub open spec fn known_policies() -> Seq<Seq<char>> {
    seq![
        "dash_comment_normalizer"@,
        "section_title_normalizer"@,
        "compact_declarations"@,
        "class_layout"@,
        "lua_macro_spacing"@,
        "namespace_end_comments"@,
        "pragma_once_spacing"@,
        "include_guards"@,
        "include_order"@,
        "logical_keyword_operators"@,
        "function_void_params"@,
        "operator_overload_spacing"@,
        "clang_format"@,
        "naming_conventions"@,
        "snake_case"@,
        "numeric_literal_suffix"@,
    ]
}

/// No two policies that are followed share a name.
pub proof fn lemma_policies_differ(i: int, j: int)
    requires
        0 <= i < j < NUM_POLICIES,
    ensures
        known_policies()[i] != known_policies()[j],
{
    reveal_strlit("dash_comment_normalizer");
    reveal_strlit("section_title_normalizer");
    reveal_strlit("compact_declarations");
    reveal_strlit("class_layout");
    reveal_strlit("lua_macro_spacing");
    reveal_strlit("namespace_end_comments");
    reveal_strlit("pragma_once_spacing");
    reveal_strlit("include_guards");
    reveal_strlit("include_order");
    reveal_strlit("logical_keyword_operators");
    reveal_strlit("function_void_params");
    reveal_strlit("operator_overload_spacing");
    reveal_strlit("clang_format");
    reveal_strlit("naming_conventions");
    reveal_strlit("snake_case");
    reveal_strlit("numeric_literal_suffix");
    let a = known_policies()[i];
    let b = known_policies()[j];
    if a == b {
        assert(a.len() == b.len());
        assert(a[0] == b[0] && a[1] == b[1] && a[8] == b[8]);
    }
}

/// The number of a policy, if it is followed.
pub open spec fn policy_number(name: Seq<char>) -> Option<u8> {
    if known_policies().contains(name) {
        Some(known_policies().index_of(name) as u8)
    } else {
        None
    }
}

/// A policy's number is its place among those that are followed.
pub proof fn lemma_policy_number(i: u8)
    requires
        i < NUM_POLICIES,
    ensures
        policy_number(known_policies()[i as int]) == Some(i),
{
    let known = known_policies();
    let at = known.index_of(known[i as int]);
    assert(known.contains(known[i as int]));
    assert(0 <= at < known.len() && known[at] == known[i as int]);
    if at < i {
        lemma_policies_differ(at, i as int);
    } else if at > i {
        lemma_policies_differ(i as int, at);
    }
}

/// The number of a policy, if it is followed.
pub fn policy_index(policy_name: &str) -> (r: Option<u8>)
    ensures
        r == policy_number(policy_name@),
        r matches Some(i) ==> i < NUM_POLICIES && known_policies()[i as int] == policy_name@,
{
    let r = find_policy(policy_name);
    proof {
        if let Some(i) = r {
            lemma_policy_number(i);
        }
    }
    r
}

fn find_policy(policy_name: &str) -> (r: Option<u8>)
    ensures
        match r {
            Some(i) => i < NUM_POLICIES && known_policies()[i as int] == policy_name@,
            None => !known_policies().contains(policy_name@),
        },
{
    let p = policy_name;
    let ghost known = known_policies();
    if str_eq(p, "dash_comment_normalizer") {
        Some(0)
    } else if str_eq(p, "section_title_normalizer") {
        Some(1)
    } else if str_eq(p, "compact_declarations") {
        Some(2)
    } else if str_eq(p, "class_layout") {
        Some(3)
    } else if str_eq(p, "lua_macro_spacing") {
        Some(4)
    } else if str_eq(p, "namespace_end_comments") {
        Some(5)
    } else if str_eq(p, "pragma_once_spacing") {
        Some(6)
    } else if str_eq(p, "include_guards") {
        Some(7)
    } else if str_eq(p, "include_order") {
        Some(8)
    } else if str_eq(p, "logical_keyword_operators") {
        Some(9)
    } else if str_eq(p, "function_void_params") {
        Some(10)
    } else if str_eq(p, "operator_overload_spacing") {
        Some(11)
    } else if str_eq(p, "clang_format") {
        Some(12)
    } else if str_eq(p, "naming_conventions") {
        Some(13)
    } else if str_eq(p, "snake_case") {
        Some(14)
    } else if str_eq(p, "numeric_literal_suffix") {
        Some(15)
    } else {
        None
    }
}

/// How a policy did on one file.
#[derive(Clone, Copy, Debug, PartialEq, Eq, Structural)]
pub struct PolicyOutcomeRecord {
    pub policy_index: u8,
    pub block_kind: BlockContextKind,
    pub success: bool,
}

/// The modifier for a success rate: a half at none, neutral at one half, and
/// three tenths more than neutral at one.
pub open spec fn modifier(rate: u32) -> int {
    fuzzy_inference::interp(rate, 500_000_000, 1_000_000_000, 1_300_000_000)
}

/// The modifier for a success rate.
pub fn interp_modifier(rate: u32) -> (r: u32)
    ensures
        r == modifier(rate),
        500_000_000 <= r <= 1_300_000_000,
{
    proof {
        fuzzy_inference::lemma_interp_bounds(rate, 500_000_000, 1_000_000_000, 1_300_000_000);
    }
    kalman_interp(rate as i64, 500_000_000, 1_000_000_000, 1_300_000_000) as u32
}

/// A success rate after one more outcome, which counts for a fifth.
pub open spec fn next_rate(rate: u32, success: bool) -> int {
    (if success {
        200_000_000int
    } else {
        0
    }) + rate as int * 4 / 5
}

/// One more, up to the largest number there is.
pub open spec fn next_count(n: u32) -> u32 {
    if n == u32::MAX {
        n
    } else {
        (n + 1) as u32
    }
}

/// The success rates of the policies, by kind of file and by kind of block.
#[derive(Debug)]
pub struct PolicyContextTracker {
    pub file_ema: Vec<u32>,
    pub file_cnt: Vec<u32>,
    pub block_ema: Vec<u32>,
    pub block_cnt: Vec<u32>,
}

/// The place of a policy and a kind of file.
pub open spec fn file_place(policy_idx: u8, kind: FileContextKind) -> int {
    policy_idx * NUM_FILE_KINDS + kind.number()
}

/// The place of a policy and a kind of block.
pub open spec fn block_place(policy_idx: u8, kind: BlockContextKind) -> int {
    policy_idx * NUM_BLOCK_KINDS + kind.number()
}

/// Rates and counts after one more outcome at a place. A place past the end
/// changes nothing.
pub open spec fn observed(
    rates: (Seq<u32>, Seq<u32>),
    place: int,
    success: bool,
) -> (Seq<u32>, Seq<u32>) {
    if place >= rates.0.len() {
        rates
    } else {
        (
            rates.0.update(place, next_rate(rates.0[place], success) as u32),
            rates.1.update(place, next_count(rates.1[place])),
        )
    }
}

/// The modifier at a place: neutral until there are enough observations.
pub open spec fn modifier_at(rates: (Seq<u32>, Seq<u32>), place: int) -> int {
    if place >= rates.0.len() || rates.1[place] < USABLE_OBSERVATIONS {
        NEUTRAL as int
    } else {
        modifier(rates.0[place])
    }
}

impl PolicyContextTracker {
    /// Whether there is a rate and a count for every policy and kind, and no
    /// rate is above one.
    pub open spec fn valid(self) -> bool {
        &&& self.file_ema@.len() == FILE_RATES && self.file_cnt@.len() == FILE_RATES
        &&& self.block_ema@.len() == BLOCK_RATES && self.block_cnt@.len() == BLOCK_RATES
        &&& forall|i: int| 0 <= i < FILE_RATES ==> self.file_ema@[i] <= 1_000_000_000
        &&& forall|i: int| 0 <= i < BLOCK_RATES ==> self.block_ema@[i] <= 1_000_000_000
    }

    /// The rates and counts by kind of file.
    pub open spec fn files(self) -> (Seq<u32>, Seq<u32>) {
        (self.file_ema@, self.file_cnt@)
    }

    /// The rates and counts by kind of block.
    pub open spec fn blocks(self) -> (Seq<u32>, Seq<u32>) {
        (self.block_ema@, self.block_cnt@)
    }

    /// A tracker that has seen nothing.
    pub fn new() -> (r: Self)
        ensures
            r.valid(),
            forall|i: int|
                0 <= i < FILE_RATES ==> r.file_ema@[i] == 500_000_000 && r.file_cnt@[i] == 0,
            forall|i: int|
                0 <= i < BLOCK_RATES ==> r.block_ema@[i] == 500_000_000 && r.block_cnt@[i] == 0,
    {
        PolicyContextTracker {
            file_ema: filled(FILE_RATES, 500_000_000),
            file_cnt: filled(FILE_RATES, 0),
            block_ema: filled(BLOCK_RATES, 500_000_000),
            block_cnt: filled(BLOCK_RATES, 0),
        }
    }

    /// Takes note of how a policy did in a kind of file.
    pub fn observe_file(&mut self, policy_idx: u8, file_kind: FileContextKind, success: bool)
        requires
            old(self).valid(),
        ensures
            final(self).valid(),
            final(self).files() == observed(
                old(self).files(),
                file_place(policy_idx, file_kind),
                success,
            ),
            final(self).blocks() == old(self).blocks(),
    {
        let place: usize = policy_idx as usize * NUM_FILE_KINDS + file_kind.index();
        if place < FILE_RATES {
            let rate = step(self.file_ema[place], success);
            let count = count_one(self.file_cnt[place]);
            self.file_ema.set(place, rate);
            self.file_cnt.set(place, count);
        }
    }

    /// Takes note of how a policy did in a kind of block.
    pub fn observe_block(&mut self, policy_idx: u8, block_kind: BlockContextKind, success: bool)
        requires
            old(self).valid(),
        ensures
            final(self).valid(),
            final(self).blocks() == observed(
                old(self).blocks(),
                block_place(policy_idx, block_kind),
                success,
            ),
            final(self).files() == old(self).files(),
    {
        let place: usize = policy_idx as usize * NUM_BLOCK_KINDS + block_kind.index();
        if place < BLOCK_RATES {
            let rate = step(self.block_ema[place], success);
            let count = count_one(self.block_cnt[place]);
            self.block_ema.set(place, rate);
            self.block_cnt.set(place, count);
        }
    }

    /// Takes note of several outcomes in one kind of file.
    pub fn batch_observe_outcomes(
        &mut self,
        file_kind: FileContextKind,
        outcomes: &[PolicyOutcomeRecord],
    )
        requires
            old(self).valid(),
        ensures
            final(self).valid(),
            final(self).files() == files_after(old(self).files(), file_kind, outcomes@),
            final(self).blocks() == blocks_after(old(self).blocks(), outcomes@),
    {
        let mut i: usize = 0;
        while i < outcomes.len()
            invariant
                i <= outcomes.len(),
                self.valid(),
                self.files() == files_after(old(self).files(), file_kind, outcomes@.take(i as int)),
                self.blocks() == blocks_after(old(self).blocks(), outcomes@.take(i as int)),
            decreases outcomes.len() - i,
        {
            let record = outcomes[i];
            self.observe_file(record.policy_index, file_kind, record.success);
            self.observe_block(record.policy_index, record.block_kind, record.success);
            assert(outcomes@.take(i + 1).drop_last() =~= outcomes@.take(i as int));
            i = i + 1;
        }
        assert(outcomes@.take(i as int) =~= outcomes@);
    }

    /// The modifier of a policy in a kind of file.
    pub fn file_modifier(&self, policy_idx: u8, file_kind: FileContextKind) -> (r: u32)
        requires
            self.valid(),
        ensures
            r == modifier_at(self.files(), file_place(policy_idx, file_kind)),
            500_000_000 <= r <= 1_300_000_000,
    {
        let place: usize = policy_idx as usize * NUM_FILE_KINDS + file_kind.index();
        if place >= FILE_RATES || self.file_cnt[place] < USABLE_OBSERVATIONS {
            NEUTRAL
        } else {
            interp_modifier(self.file_ema[place])
        }
    }

    /// The modifier of a policy in a kind of block.
    pub fn block_modifier(&self, policy_idx: u8, block_kind: BlockContextKind) -> (r: u32)
        requires
            self.valid(),
        ensures
            r == modifier_at(self.blocks(), block_place(policy_idx, block_kind)),
            500_000_000 <= r <= 1_300_000_000,
    {
        let place: usize = policy_idx as usize * NUM_BLOCK_KINDS + block_kind.index();
        if place >= BLOCK_RATES || self.block_cnt[place] < USABLE_OBSERVATIONS {
            NEUTRAL
        } else {
            interp_modifier(self.block_ema[place])
        }
    }

    /// The modifier of a policy in a kind of file and a kind of block.
    pub fn context_modifier(
        &self,
        policy_idx: u8,
        file_kind: FileContextKind,
        block_kind: BlockContextKind,
    ) -> (r: u32)
        requires
            self.valid(),
        ensures
            r == modifier_at(self.files(), file_place(policy_idx, file_kind)) * modifier_at(
                self.blocks(),
                block_place(policy_idx, block_kind),
            ) / 1_000_000_000,
    {
        let file = self.file_modifier(policy_idx, file_kind);
        let block = self.block_modifier(policy_idx, block_kind);
        product(file, block)
    }

    /// The modifiers of all policies in a kind of file.
    pub fn batch_file_modifiers(&self, file_kind: FileContextKind) -> (r: Vec<u32>)
        requires
            self.valid(),
        ensures
            r@.len() == BATCH,
            forall|p: int|
                0 <= p < BATCH ==> #[trigger] r@[p] == modifier_at(
                    self.files(),
                    file_place(p as u8, file_kind),
                ),
            forall|p: int| 0 <= p < BATCH ==> #[trigger] r@[p] <= 1_300_000_000,
    {
        let mut r: Vec<u32> = Vec::new();
        let mut p: u8 = 0;
        while p < 24
            invariant
                p <= 24,
                self.valid(),
                r@.len() == p,
                forall|q: int|
                    0 <= q < p ==> #[trigger] r@[q] == modifier_at(
                        self.files(),
                        file_place(q as u8, file_kind),
                    ),
                forall|q: int| 0 <= q < p ==> #[trigger] r@[q] <= 1_300_000_000,
            decreases 24 - p,
        {
            r.push(self.file_modifier(p, file_kind));
            p = p + 1;
        }
        r
    }

    /// The modifiers of all policies in a kind of block.
    pub fn batch_block_modifiers(&self, block_kind: BlockContextKind) -> (r: Vec<u32>)
        requires
            self.valid(),
        ensures
            r@.len() == BATCH,
            forall|p: int|
                0 <= p < BATCH ==> #[trigger] r@[p] == modifier_at(
                    self.blocks(),
                    block_place(p as u8, block_kind),
                ),
            forall|p: int| 0 <= p < BATCH ==> #[trigger] r@[p] <= 1_300_000_000,
    {
        let mut r: Vec<u32> = Vec::new();
        let mut p: u8 = 0;
        while p < 24
            invariant
                p <= 24,
                self.valid(),
                r@.len() == p,
                forall|q: int|
                    0 <= q < p ==> #[trigger] r@[q] == modifier_at(
                        self.blocks(),
                        block_place(q as u8, block_kind),
                    ),
                forall|q: int| 0 <= q < p ==> #[trigger] r@[q] <= 1_300_000_000,
            decreases 24 - p,
        {
            r.push(self.block_modifier(p, block_kind));
            p = p + 1;
        }
        r
    }
}

/// The rates by kind of file after several outcomes.
pub open spec fn files_after(
    rates: (Seq<u32>, Seq<u32>),
    kind: FileContextKind,
    outcomes: Seq<PolicyOutcomeRecord>,
) -> (Seq<u32>, Seq<u32>)
    decreases outcomes.len(),
{
    if outcomes.len() == 0 {
        rates
    } else {
        let last = outcomes.last();
        observed(
            files_after(rates, kind, outcomes.drop_last()),
            file_place(last.policy_index, kind),
            last.success,
        )
    }
}

/// The rates by kind of block after several outcomes.
pub open spec fn blocks_after(
    rates: (Seq<u32>, Seq<u32>),
    outcomes: Seq<PolicyOutcomeRecord>,
) -> (Seq<u32>, Seq<u32>)
    decreases outcomes.len(),
{
    if outcomes.len() == 0 {
        rates
    } else {
        let last = outcomes.last();
        observed(
            blocks_after(rates, outcomes.drop_last()),
            block_place(last.policy_index, last.block_kind),
            last.success,
        )
    }
}

fn filled(n: usize, value: u32) -> (r: Vec<u32>)
    ensures
        r@.len() == n,
        forall|i: int| 0 <= i < n ==> r@[i] == value,
{
    let mut r: Vec<u32> = Vec::new();
    let mut i: usize = 0;
    while i < n
        invariant
            i <= n,
            r@.len() == i,
            forall|j: int| 0 <= j < i ==> r@[j] == value,
        decreases n - i,
    {
        r.push(value);
        i = i + 1;
    }
    r
}

fn step(rate: u32, success: bool) -> (r: u32)
    requires
        rate <= 1_000_000_000,
    ensures
        r == next_rate(rate, success),
        r <= 1_000_000_000,
{
    let kept: u32 = rate * 4 / 5;
    if success {
        200_000_000 + kept
    } else {
        kept
    }
}

fn count_one(n: u32) -> (r: u32)
    ensures
        r == next_count(n),
{
    if n == u32::MAX {
        n
    } else {
        n + 1
    }
}

fn product(a: u32, b: u32) -> (r: u32)
    requires
        a <= 1_300_000_000,
        b <= 1_300_000_000,
    ensures
        r == a * b / 1_000_000_000,
        r <= 1_690_000_000,
{
    assert(0 <= a as u64 * b as u64 <= 1_690_000_000_000_000_000) by (nonlinear_arith)
        requires
            a <= 1_300_000_000,
            b <= 1_300_000_000,
    ;
    (a as u64 * b as u64 / 1_000_000_000) as u32
}

/// A success never lowers a rate, and a failure never raises one.
pub proof fn lemma_rate_follows_outcome(rate: u32)
    requires
        rate <= 1_000_000_000,
    ensures
        rate <= next_rate(rate, true) <= 1_000_000_000,
        next_rate(rate, false) <= rate,
{
}

/// Too few observations leave a policy's modifier neutral, whatever they were.
pub proof fn lemma_few_observations_are_neutral(rates: (Seq<u32>, Seq<u32>), place: int)
    requires
        0 <= place < rates.0.len(),
        rates.1[place] < USABLE_OBSERVATIONS,
    ensures
        modifier_at(rates, place) == NEUTRAL,
{
}

/// An outcome touches no policy or kind but its own.
pub proof fn lemma_outcome_is_local(
    rates: (Seq<u32>, Seq<u32>),
    place: int,
    success: bool,
    other: int,
)
    requires
        rates.0.len() == rates.1.len(),
        0 <= place,
        0 <= other < rates.0.len(),
        other != place,
    ensures
        modifier_at(observed(rates, place, success), other) == modifier_at(rates, other),
{
}

/// The modifier of a policy by its name, from the batches of a file's kind and
/// of each kind of block. A policy that is not followed has a neutral one.
pub open spec fn named_modifier(
    name: Seq<char>,
    files: Seq<u32>,
    blocks: Seq<Seq<u32>>,
    block: Option<usize>,
) -> int {
    match policy_number(name) {
        Some(p) => files[p as int] * (match block {
            Some(b) => blocks[b as int][p as int] as int,
            None => 1_000_000_000,
        }) / 1_000_000_000,
        None => NEUTRAL as int,
    }
}

/// Whether there is a modifier for every policy, in a kind of file and in every
/// kind of block, and none is above what a modifier can be.
pub open spec fn are_batches(files: Seq<u32>, blocks: Seq<Seq<u32>>) -> bool {
    &&& files.len() == BATCH
    &&& blocks.len() == NUM_BLOCK_KINDS
    &&& forall|b: int| 0 <= b < NUM_BLOCK_KINDS ==> #[trigger] blocks[b].len() == BATCH
    &&& forall|p: int| 0 <= p < BATCH ==> files[p] <= 1_300_000_000
    &&& forall|b: int, p: int|
        0 <= b < NUM_BLOCK_KINDS && 0 <= p < BATCH ==> #[trigger] blocks[b][p] <= 1_300_000_000
}

/// The views of several batches.
pub open spec fn batch_views(batches: Seq<Vec<u32>>) -> Seq<Seq<u32>> {
    Seq::new(batches.len(), |i: int| batches[i]@)
}

/// The modifier of a policy by its name.
pub fn context_modifier_for_policy(
    file_mods: &[u32],
    block_mods: &[Vec<u32>],
    policy_name: &str,
    block_index: Option<usize>,
) -> (r: u32)
    requires
        are_batches(file_mods@, batch_views(block_mods@)),
        block_index matches Some(b) ==> b < NUM_BLOCK_KINDS,
    ensures
        r == named_modifier(policy_name@, file_mods@, batch_views(block_mods@), block_index),
        r <= 1_690_000_000,
{
    match policy_index(policy_name) {
        Some(p) => {
            let p: usize = p as usize;
            let block: u32 = match block_index {
                Some(b) => {
                    assert(batch_views(block_mods@)[b as int] == block_mods@[b as int]@);
                    assert(batch_views(block_mods@)[b as int][p as int] <= 1_300_000_000);
                    block_mods[b][p]
                },
                None => NEUTRAL,
            };
            product(file_mods[p], block)
        },
        None => NEUTRAL,
    }
}

/// The block that an edit falls in. A line or a scope that is not known counts
/// as global.
pub open spec fn block_of(edit: (usize, Option<BlockContextKind>)) -> BlockContextKind {
    if edit.0 == 0 {
        BlockContextKind::Global
    } else {
        match edit.1 {
            Some(kind) => kind,
            None => BlockContextKind::Global,
        }
    }
}

/// How many edits fall in the block with a number.
pub open spec fn edits_in(edits: Seq<(usize, Option<BlockContextKind>)>, number: int) -> nat
    decreases edits.len(),
{
    if edits.len() == 0 {
        0
    } else {
        edits_in(edits.drop_last(), number) + (if block_of(edits.last()).number() == number {
            1nat
        } else {
            0
        })
    }
}

/// Whether a block holds the most edits, and more than every block after it.
pub open spec fn dominates(edits: Seq<(usize, Option<BlockContextKind>)>, number: int) -> bool {
    &&& 0 <= number < NUM_BLOCK_KINDS
    &&& forall|j: int|
        0 <= j < NUM_BLOCK_KINDS ==> #[trigger] edits_in(edits, j) <= edits_in(edits, number)
    &&& forall|j: int|
        number < j < NUM_BLOCK_KINDS ==> #[trigger] edits_in(edits, j) < edits_in(edits, number)
}

/// Edits have one dominant block.
pub proof fn lemma_one_block_dominates(
    edits: Seq<(usize, Option<BlockContextKind>)>,
    a: int,
    b: int,
)
    requires
        dominates(edits, a),
        dominates(edits, b),
    ensures
        a == b,
{
    assert(edits_in(edits, a) <= edits_in(edits, b));
    assert(edits_in(edits, b) <= edits_in(edits, a));
}

/// The number of the block that holds most edits; of several such, the last. It
/// is the global one without edits, or where no scopes are known.
pub open spec fn dominant_block(
    scopes_known: bool,
    edits: Seq<(usize, Option<BlockContextKind>)>,
) -> int {
    if edits.len() == 0 || !scopes_known {
        BlockContextKind::Global.number() as int
    } else {
        choose|n: int| dominates(edits, n)
    }
}

/// The number of the block that holds most edits, each given by its line and
/// the kind of the scope there. It is the global one without edits, or where no
/// scopes are known.
pub fn dominant_block_index(
    scopes_known: bool,
    edits: &[(usize, Option<BlockContextKind>)],
) -> (r: usize)
    ensures
        r == dominant_block(scopes_known, edits@),
        r < NUM_BLOCK_KINDS,
        edits@.len() > 0 && scopes_known ==> dominates(edits@, r as int),
{
    if edits.len() == 0 || !scopes_known {
        return 4;
    }
    let mut counts: Vec<usize> = Vec::new();
    let mut k: usize = 0;
    while k < NUM_BLOCK_KINDS
        invariant
            k <= NUM_BLOCK_KINDS,
            counts@.len() == k,
            forall|j: int| 0 <= j < k ==> #[trigger] counts@[j] == edits_in(edits@, j),
        decreases NUM_BLOCK_KINDS - k,
    {
        let n = count_edits(edits, k);
        counts.push(n);
        k = k + 1;
    }
    let mut best: usize = 0;
    let mut i: usize = 1;
    while i < NUM_BLOCK_KINDS
        invariant
            best < i <= NUM_BLOCK_KINDS,
            counts@.len() == NUM_BLOCK_KINDS,
            forall|j: int|
                0 <= j < NUM_BLOCK_KINDS ==> #[trigger] counts@[j] == edits_in(edits@, j),
            forall|j: int| 0 <= j < i ==> #[trigger] counts@[j] <= counts@[best as int],
            forall|j: int| best < j < i ==> #[trigger] counts@[j] < counts@[best as int],
        decreases NUM_BLOCK_KINDS - i,
    {
        if counts[i] >= counts[best] {
            best = i;
        }
        i = i + 1;
    }
    assert forall|j: int| 0 <= j < NUM_BLOCK_KINDS implies #[trigger] edits_in(edits@, j)
        <= edits_in(edits@, best as int) by {
        assert(counts@[j] <= counts@[best as int]);
    }
    assert forall|j: int| best < j < NUM_BLOCK_KINDS implies #[trigger] edits_in(edits@, j)
        < edits_in(edits@, best as int) by {
        assert(counts@[j] < counts@[best as int]);
    }
    proof {
        assert(dominates(edits@, best as int));
        lemma_one_block_dominates(edits@, best as int, dominant_block(scopes_known, edits@));
    }
    best
}

/// The confidence in a policy's edits: its score, which is one where no decision
/// was made, scaled by the policy's modifier in the block that holds most edits.
pub open spec fn confidence_of(
    base: Option<i64>,
    files: Seq<u32>,
    blocks: Seq<Seq<u32>>,
    name: Seq<char>,
    scopes_known: bool,
    edits: Seq<(usize, Option<BlockContextKind>)>,
) -> int {
    let score: int = match base {
        Some(b) => b as int,
        None => 1_000_000_000,
    };
    let block = dominant_block(scopes_known, edits) as usize;
    score * named_modifier(name, files, blocks, Some(block)) / 1_000_000_000
}

/// The confidence in a policy's edits.
pub fn candidate_confidence(
    base: Option<i64>,
    file_mods: &[u32],
    block_mods: &[Vec<u32>],
    policy_name: &str,
    scopes_known: bool,
    edits: &[(usize, Option<BlockContextKind>)],
) -> (r: i64)
    requires
        are_batches(file_mods@, batch_views(block_mods@)),
        base matches Some(b) ==> -(i64::MAX / 2) <= b <= i64::MAX / 2,
    ensures
        r == confidence_of(
            base,
            file_mods@,
            batch_views(block_mods@),
            policy_name@,
            scopes_known,
            edits@,
        ),
{
    let score: i64 = match base {
        Some(b) => b,
        None => 1_000_000_000,
    };
    let block = dominant_block_index(scopes_known, edits);
    let modifier = context_modifier_for_policy(file_mods, block_mods, policy_name, Some(block));
    let ghost s = score as int;
    let ghost m = modifier as int;
    assert(-(i64::MAX / 2) * 1_690_000_000 <= s * m <= (i64::MAX / 2) * 1_690_000_000)
        by (nonlinear_arith)
        requires
            -(i64::MAX / 2) <= s <= i64::MAX / 2,
            0 <= m <= 1_690_000_000,
    ;
    floor_div(score as i128 * modifier as i128, 1_000_000_000) as i64
}

/// A policy whose edits have a higher score has no less confidence.
pub proof fn lemma_confidence_follows_score(
    low: i64,
    high: i64,
    files: Seq<u32>,
    blocks: Seq<Seq<u32>>,
    name: Seq<char>,
    scopes_known: bool,
    edits: Seq<(usize, Option<BlockContextKind>)>,
)
    requires
        are_batches(files, blocks),
        low <= high,
    ensures
        confidence_of(Some(low), files, blocks, name, scopes_known, edits) <= confidence_of(
            Some(high),
            files,
            blocks,
            name,
            scopes_known,
            edits,
        ),
{
    let m = named_modifier(
        name,
        files,
        blocks,
        Some(dominant_block(scopes_known, edits) as usize),
    );
    assert(low * m <= high * m) by (nonlinear_arith)
        requires
            low <= high,
            0 <= m,
    ;
}

fn count_edits(edits: &[(usize, Option<BlockContextKind>)], number: usize) -> (r: usize)
    ensures
        r == edits_in(edits@, number as int),
{
    let mut n: usize = 0;
    let mut i: usize = 0;
    while i < edits.len()
        invariant
            i <= edits.len(),
            n <= i,
            n == edits_in(edits@.take(i as int), number as int),
        decreases edits.len() - i,
    {
        let (line, kind) = edits[i];
        let block = match kind {
            Some(k) => if line == 0 {
                BlockContextKind::Global
            } else {
                k
            },
            None => BlockContextKind::Global,
        };
        assert(edits@.take(i + 1).drop_last() =~= edits@.take(i as int));
        if block.index() == number {
            n = n + 1;
        }
        i = i + 1;
    }
    assert(edits@.take(i as int) =~= edits@);
    n
}

/// What follows a dot behind a name, and holds no other dot, is the extension.
pub proof fn lemma_extension_of_a_name(stem: Seq<char>, ext: Seq<char>)
    requires
        stem.len() > 0,
        forall|k: int| 0 <= k < ext.len() ==> #[trigger] ext[k] != '.',
    ensures
        extension(stem + seq!['.'] + ext) == ext,
{
    let name = stem + seq!['.'] + ext;
    lemma_last_dot(stem, ext);
    assert(name.skip(stem.len() as int + 1) =~= ext);
}

proof fn lemma_last_dot(stem: Seq<char>, ext: Seq<char>)
    requires
        forall|k: int| 0 <= k < ext.len() ==> #[trigger] ext[k] != '.',
    ensures
        last_dot(stem + seq!['.'] + ext) == stem.len(),
    decreases ext.len(),
{
    let name = stem + seq!['.'] + ext;
    if ext.len() == 0 {
        assert(name.last() == '.');
    } else {
        let head = ext.drop_last();
        assert forall|k: int| 0 <= k < head.len() implies #[trigger] head[k] != '.' by {
            assert(head[k] == ext[k]);
        }
        lemma_last_dot(stem, head);
        assert(name.drop_last() =~= stem + seq!['.'] + head);
        assert(name.last() == ext[ext.len() - 1]);
    }
}

/// A modifier halves at no success, is neutral at one half, adds three tenths at
/// all, and never falls with the success rate.
pub proof fn lemma_modifier_follows_rate(less: u32, more: u32)
    requires
        less <= more,
    ensures
        modifier(0) == 500_000_000,
        modifier(500_000_000) == 1_000_000_000,
        modifier(1_000_000_000) == 1_300_000_000,
        modifier(less) <= modifier(more),
{
    fuzzy_inference::lemma_interp_meets_its_values(500_000_000, 1_000_000_000, 1_300_000_000);
    fuzzy_inference::lemma_interp_is_monotone(
        less,
        more,
        500_000_000,
        1_000_000_000,
        1_300_000_000,
    );
}

/// An outcome moves its own rate a fifth of the way: a policy that always
/// succeeds stays at one, and one that never does at none. It is counted.
pub proof fn lemma_outcome_is_observed(
    rates: (Seq<u32>, Seq<u32>),
    place: int,
    success: bool,
)
    requires
        rates.0.len() == rates.1.len(),
        0 <= place < rates.0.len(),
        rates.0[place] <= 1_000_000_000,
    ensures
        ({
            let now = observed(rates, place, success);
            &&& rates.1[place] < u32::MAX ==> now.1[place] == rates.1[place] + 1
            &&& success && rates.0[place] == 1_000_000_000 ==> now.0[place] == 1_000_000_000
            &&& !success && rates.0[place] == 0 ==> now.0[place] == 0
            &&& success && rates.0[place] == 0 ==> now.0[place] == 200_000_000
            &&& !success && rates.0[place] == 1_000_000_000 ==> now.0[place] == 800_000_000
            &&& now.0.len() == rates.0.len() && now.1.len() == rates.1.len()
        }),
{
}

/// Each policy and kind has a place of its own, within the tables.
pub proof fn lemma_places_differ(
    a: u8,
    b: u8,
    file: (FileContextKind, FileContextKind),
    block: (BlockContextKind, BlockContextKind),
)
    requires
        a < 16,
        b < 16,
    ensures
        0 <= file_place(a, file.0) < 48,
        0 <= block_place(a, block.0) < 96,
        file_place(a, file.0) == file_place(b, file.1) ==> a == b && file.0 == file.1,
        block_place(a, block.0) == block_place(b, block.1) ==> a == b && block.0 == block.1,
{
}

/// An outcome is counted for the policy that had it, in its kind of file and its
/// kind of block, and for no other.
pub proof fn lemma_outcomes_are_counted(
    files: (Seq<u32>, Seq<u32>),
    blocks: (Seq<u32>, Seq<u32>),
    kind: FileContextKind,
    outcome: PolicyOutcomeRecord,
    place: int,
)
    requires
        files.0.len() == 48,
        files.1.len() == 48,
        blocks.0.len() == 96,
        blocks.1.len() == 96,
        outcome.policy_index < 16,
        forall|i: int| 0 <= i < 48 ==> files.1[i] < u32::MAX,
        forall|i: int| 0 <= i < 96 ==> blocks.1[i] < u32::MAX,
    ensures
        ({
            let f = files_after(files, kind, seq![outcome]);
            let b = blocks_after(blocks, seq![outcome]);
            let here = outcome.policy_index * 3 + kind.number();
            let there = outcome.policy_index * 6 + outcome.block_kind.number();
            &&& f.1[here] == files.1[here] + 1
            &&& b.1[there] == blocks.1[there] + 1
            &&& 0 <= place < 48 && place != here ==> f.1[place] == files.1[place] && f.0[place]
                == files.0[place]
            &&& 0 <= place < 96 && place != there ==> b.1[place] == blocks.1[place] && b.0[place]
                == blocks.0[place]
        }),
{
    reveal_with_fuel(files_after, 2);
    reveal_with_fuel(blocks_after, 2);
    assert(seq![outcome].drop_last() =~= Seq::empty());
    assert(seq![outcome].last() == outcome);
}

/// The dominant block holds at least as many edits as any other; edits that all
/// fall in one block make it dominant.
pub proof fn lemma_fullest_block_dominates(
    edits: Seq<(usize, Option<BlockContextKind>)>,
    kind: BlockContextKind,
    number: int,
)
    requires
        edits.len() > 0,
        forall|i: int| 0 <= i < edits.len() ==> (#[trigger] edits[i]).0 > 0 && edits[i].1 == Some(
            kind,
        ),
        dominates(edits, number),
    ensures
        number == kind.number(),
        dominant_block(true, edits) == kind.number(),
{
    lemma_all_in(edits, kind, number);
    lemma_all_in(edits, kind, kind.number() as int);
    assert(edits_in(edits, kind.number() as int) <= edits_in(edits, number));
    lemma_one_block_dominates(edits, number, dominant_block(true, edits));
}

proof fn lemma_all_in(
    edits: Seq<(usize, Option<BlockContextKind>)>,
    kind: BlockContextKind,
    number: int,
)
    requires
        forall|i: int| 0 <= i < edits.len() ==> (#[trigger] edits[i]).0 > 0 && edits[i].1 == Some(
            kind,
        ),
    ensures
        edits_in(edits, number) == if number == kind.number() {
            edits.len()
        } else {
            0
        },
    decreases edits.len(),
{
    if edits.len() > 0 {
        let head = edits.drop_last();
        assert forall|i: int| 0 <= i < head.len() implies (#[trigger] head[i]).0 > 0 && head[i].1
            == Some(kind) by {
            assert(head[i] == edits[i]);
        }
        lemma_all_in(head, kind, number);
        assert(edits[edits.len() - 1] == edits.last());
    }
}

/// A modifier multiplies: where every modifier is neutral the confidence is the
/// score, and so it is for a policy that is not followed.
pub proof fn lemma_neutral_modifiers_keep_the_score(
    score: i64,
    files: Seq<u32>,
    blocks: Seq<Seq<u32>>,
    name: Seq<char>,
    edits: Seq<(usize, Option<BlockContextKind>)>,
    p: int,
)
    requires
        are_batches(files, blocks),
    ensures
        !known_policies().contains(name) ==> confidence_of(
            Some(score),
            files,
            blocks,
            name,
            false,
            edits,
        ) == score,
        0 <= p < 16 && name == known_policies()[p] && files[p] == 1_000_000_000 && blocks[4][p]
            == 1_000_000_000 ==> confidence_of(Some(score), files, blocks, name, false, edits)
            == score,
        0 <= p < 16 && name == known_policies()[p] && files[p] == 500_000_000 && blocks[4][p]
            == 1_000_000_000 ==> confidence_of(None, files, blocks, name, false, edits)
            == 500_000_000,
        0 <= p < 16 && name == known_policies()[p] && files[p] == 1_000_000_000 && blocks[4][p]
            == 500_000_000 ==> confidence_of(None, files, blocks, name, false, edits)
            == 500_000_000,
{
    if 0 <= p < 16 {
        lemma_policy_number(p as u8);
    }
    let block = dominant_block(false, edits) as usize;
    assert(block == 4);
    let m = named_modifier(name, files, blocks, Some(block));
    assert(score * 1_000_000_000 / 1_000_000_000 == score);
    if !known_policies().contains(name) {
        assert(m == 1_000_000_000);
        assert(score * m == score * 1_000_000_000);
    } else if 0 <= p < 16 && name == known_policies()[p] && files[p] == 1_000_000_000
        && blocks[4][p] == 1_000_000_000 {
        assert(files[p] * blocks[4][p] == 1_000_000_000 * 1_000_000_000);
        assert(m == 1_000_000_000);
        assert(score * m == score * 1_000_000_000);
    }
}

/// From the third observation on a rate counts.
pub proof fn lemma_third_observation_counts(rates: (Seq<u32>, Seq<u32>), place: int)
    requires
        0 <= place < rates.0.len(),
    ensures
        rates.1[place] >= 3 ==> modifier_at(rates, place) == modifier(rates.0[place]),
        rates.1[place] < 3 ==> modifier_at(rates, place) == 1_000_000_000,
{
}

} // verus!
