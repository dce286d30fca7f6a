//! The check of a file after it was edited.
use std::collections::BTreeSet;
use vstd::prelude::*;

use crate::compdb::SemanticCompdbContextKind;
use crate::fuzzy_inference;
use crate::fuzzy_inference::{fuzzy_context_tol, fuzzy_transition_tols, PolicyCertainty};
use crate::lines;
use crate::lines::{line_near, lines_of};
use crate::semantic_contract::{SemanticContract, SemanticContractSnapshot, Severity};
use crate::text;
use crate::text::decimal_of;

pub mod baseline;
pub mod delta;

pub use crate::failure_kinds::{FailureKinds, PostEditFailureKind};

verus! {

broadcast use {
    vstd::std_specs::btree::group_btree_axioms,
    vstd::laws_cmp::group_laws_cmp,
};

/// The full ratio, in billionths.
pub const FULL_RATIO: u32 = 1_000_000_000;

/// How much of a syntax tree is in error.
#[derive(Debug)]
pub struct ErrorRatio {
    /// In billionths.
    pub units: u32,
    /// As it is shown.
    pub shown: String,
}

/// What the syntax parser reports of a text.
#[derive(Debug)]
pub struct TreeReport {
    pub has_error: bool,
    pub ratio: ErrorRatio,
    pub error_lines: BTreeSet<usize>,
}

/// How serious a diagnostic is.
#[derive(Clone, Copy, Debug, PartialEq, Eq, Structural)]
pub enum ClangDiagnosticSeverity {
    Ignored,
    Note,
    Warning,
    Error,
    Fatal,
}

/// A diagnostic with its place.
#[derive(Clone, Copy, Debug, PartialEq, Eq, Structural)]
pub struct ClangDiagnosticEntry {
    pub line: usize,
    pub column: usize,
    pub severity: ClangDiagnosticSeverity,
}

/// How many diagnostics there are of each severity.
#[derive(Clone, Copy, Debug, PartialEq, Eq, Structural)]
pub struct ClangDiagnosticSummary {
    pub ignored: usize,
    pub note: usize,
    pub warning: usize,
    pub error: usize,
    pub fatal: usize,
}

/// What the compiler reports of a text.
#[derive(Debug)]
pub struct ClangReport {
    pub error_count: usize,
    pub summary: ClangDiagnosticSummary,
    pub entries: Vec<ClangDiagnosticEntry>,
    pub error_lines: BTreeSet<usize>,
}

/// What a diagnostic of each severity weighs.
#[derive(Clone, Copy, Debug, PartialEq, Eq, Structural)]
pub struct DiagnosticWeights {
    pub note: u32,
    pub warning: u32,
    pub error: u32,
    pub fatal: u32,
}

/// How far diagnostics may grow where the compiler's options were guessed.
#[derive(Clone, Copy, Debug, PartialEq, Eq, Structural)]
pub struct ConsensusTolerance {
    pub delta_limit: u32,
    pub radius: usize,
}

/// How the compiler's options for a file were found.
#[derive(Clone, Copy, Debug, PartialEq, Eq, Structural)]
pub struct CompdbContext {
    pub kind: SemanticCompdbContextKind,
    /// Whether the file has an entry of its own.
    pub exact: bool,
}

/// What the check found.
#[derive(Debug)]
pub struct PostEditCheckResult {
    pub accepted: bool,
    pub messages: Vec<String>,
    pub failure_kinds: FailureKinds,
    pub culprit_lines: BTreeSet<usize>,
    pub identity_severity: Severity,
    pub reference_severity: Severity,
    pub scope_severity: Severity,
}

/// The value of a check.
#[verifier::ext_equal]
pub ghost struct CheckView {
    pub accepted: bool,
    pub messages: Seq<Seq<char>>,
    pub kinds: Set<PostEditFailureKind>,
    pub culprits: Set<usize>,
    pub identity_severity: Severity,
    pub reference_severity: Severity,
    pub scope_severity: Severity,
}

impl View for PostEditCheckResult {
    type V = CheckView;

    open spec fn view(&self) -> CheckView {
        CheckView {
            accepted: self.accepted,
            messages: text::views(self.messages@),
            kinds: self.failure_kinds@,
            culprits: self.culprit_lines@,
            identity_severity: self.identity_severity,
            reference_severity: self.reference_severity,
            scope_severity: self.scope_severity,
        }
    }
}

impl PostEditCheckResult {
    /// The result where there is nothing to object to.
    pub fn clean() -> (r: PostEditCheckResult)
        ensures
            r@ == clean_view(),
    {
        let r = PostEditCheckResult {
            accepted: true,
            messages: Vec::new(),
            failure_kinds: FailureKinds::new(),
            culprit_lines: BTreeSet::new(),
            identity_severity: Severity { part: 0, whole: 1 },
            reference_severity: Severity { part: 0, whole: 1 },
            scope_severity: Severity { part: 0, whole: 1 },
        };
        assert(r@ =~= clean_view());
        r
    }
}

/// Nothing was found.
pub open spec fn clean_view() -> CheckView {
    CheckView {
        accepted: true,
        messages: Seq::empty(),
        kinds: Set::empty(),
        culprits: Set::empty(),
        identity_severity: Severity::none(),
        reference_severity: Severity::none(),
        scope_severity: Severity::none(),
    }
}

/// What is known of a file before it is edited.
#[derive(Debug)]
pub struct PostEditCheckBaseline {
    pub before_tree_error: Option<bool>,
    pub before_tree_error_ratio: Option<ErrorRatio>,
    pub before_clang_error_count: Option<usize>,
    pub before_clang_fatal_count: Option<usize>,
    pub before_clang_summary: Option<ClangDiagnosticSummary>,
    pub before_clang_diagnostic_entries: Option<Vec<ClangDiagnosticEntry>>,
    pub before_clang_error_lines: Option<BTreeSet<usize>>,
    pub before_semantic_snapshot: Option<SemanticContractSnapshot>,
    pub before_semantic_ready: bool,
    pub semantic_readiness_note: Option<String>,
    pub before_tree_unavailable: bool,
    pub before_clang_unavailable: bool,
    pub warnings: Vec<String>,
}

impl PostEditCheckBaseline {
    pub fn semantic_ready(&self) -> (r: bool)
        ensures
            r == self.before_semantic_ready,
    {
        self.before_semantic_ready
    }

    pub fn semantic_readiness_note(&self) -> (r: Option<&str>)
        ensures
            match r {
                Some(note) => self.semantic_readiness_note is Some && note@
                    == self.semantic_readiness_note->Some_0@,
                None => self.semantic_readiness_note is None,
            },
    {
        match &self.semantic_readiness_note {
            Some(note) => Some(note.as_str()),
            None => None,
        }
    }

    pub fn before_semantic_snapshot(&self) -> (r: Option<&SemanticContractSnapshot>)
        ensures
            match r {
                Some(snapshot) => self.before_semantic_snapshot == Some(*snapshot),
                None => self.before_semantic_snapshot is None,
            },
    {
        match &self.before_semantic_snapshot {
            Some(snapshot) => Some(snapshot),
            None => None,
        }
    }
}

impl Default for PostEditCheckBaseline {
    /// A file of which nothing is known.
    fn default() -> (r: PostEditCheckBaseline)
        ensures
            r.before_tree_error is None,
            r.before_tree_error_ratio is None,
            r.before_clang_error_count is None,
            r.before_clang_fatal_count is None,
            r.before_clang_summary is None,
            r.before_clang_diagnostic_entries is None,
            r.before_clang_error_lines is None,
            r.before_semantic_snapshot is None,
            !r.before_semantic_ready,
            r.semantic_readiness_note is None,
            !r.before_tree_unavailable,
            !r.before_clang_unavailable,
            r.warnings@.len() == 0,
    {
        PostEditCheckBaseline {
            before_tree_error: None,
            before_tree_error_ratio: None,
            before_clang_error_count: None,
            before_clang_fatal_count: None,
            before_clang_summary: None,
            before_clang_diagnostic_entries: None,
            before_clang_error_lines: None,
            before_semantic_snapshot: None,
            before_semantic_ready: false,
            semantic_readiness_note: None,
            before_tree_unavailable: false,
            before_clang_unavailable: false,
            warnings: Vec::new(),
        }
    }
}

/// A number that stops at the largest `u32`.
pub open spec fn u32_capped(n: int) -> u32 {
    if n >= u32::MAX {
        u32::MAX
    } else {
        n as u32
    }
}

/// What the diagnostics of a text weigh together.
pub open spec fn weighted(summary: ClangDiagnosticSummary, weights: DiagnosticWeights) -> u32 {
    u32_capped(
        (summary.note as u32) * weights.note + (summary.warning as u32) * weights.warning + (
        summary.error as u32) * weights.error + (summary.fatal as u32) * weights.fatal,
    )
}

/// The errors of a text, fatal ones included.
pub open spec fn error_total(summary: ClangDiagnosticSummary) -> usize {
    if summary.error + summary.fatal >= usize::MAX {
        usize::MAX
    } else {
        (summary.error + summary.fatal) as usize
    }
}

/// The numbers of a text's diagnostics as they are shown.
pub open spec fn summary_label(summary: ClangDiagnosticSummary) -> Seq<char> {
    "fatal="@ + text::decimal(summary.fatal as nat) + " error="@ + text::decimal(
        summary.error as nat,
    ) + " warning="@ + text::decimal(summary.warning as nat) + " note="@ + text::decimal(
        summary.note as nat,
    )
}

/// How often a diagnostic occurs in a list.
pub open spec fn occurrences(
    entries: Seq<ClangDiagnosticEntry>,
    entry: ClangDiagnosticEntry,
) -> nat
    decreases entries.len(),
{
    if entries.len() == 0 {
        0
    } else {
        occurrences(entries.drop_last(), entry) + if entries.last() == entry {
            1nat
        } else {
            0nat
        }
    }
}

/// Whether a diagnostic occurs more often than before.
pub open spec fn is_new(
    before: Seq<ClangDiagnosticEntry>,
    after: Seq<ClangDiagnosticEntry>,
    entry: ClangDiagnosticEntry,
) -> bool {
    entry.line > 0 && occurrences(after, entry) > occurrences(before, entry)
}

/// The lines of the first `n` diagnostics that occur more often than before.
pub open spec fn new_lines(
    before: Seq<ClangDiagnosticEntry>,
    after: Seq<ClangDiagnosticEntry>,
    n: int,
) -> Set<usize>
    decreases n,
{
    if n <= 0 {
        Set::empty()
    } else {
        let rest = new_lines(before, after, n - 1);
        if is_new(before, after, after[n - 1]) {
            rest.insert(after[n - 1].line)
        } else {
            rest
        }
    }
}

/// Whether the check leaves the compiler out: its options were agreed on by
/// other files.
pub open spec fn skips_clang(context: CompdbContext) -> bool {
    !context.exact && context.kind.is_consensus()
}

/// Whether new diagnostics may be due to guessed options: they are few, and
/// none is near an edited line.
pub open spec fn tolerates(
    context: CompdbContext,
    edited: Option<Set<usize>>,
    delta: Set<usize>,
    severe: usize,
    weight: u32,
    limit: ConsensusTolerance,
) -> bool {
    &&& edited is Some
    &&& edited->Some_0.len() > 0
    &&& delta.len() > 0
    &&& !context.exact
    &&& context.kind.is_inferred()
    &&& severe <= 1
    &&& weight <= limit.delta_limit
    &&& forall|line: usize| #[trigger]
        delta.contains(line) ==> line > 0 && !lines::near(line, edited->Some_0, limit.radius)
}

/// Checks files after they were edited.
#[derive(Debug)]
pub struct PostEditChecker {
    pub fail_on_parser_unavailable: bool,
    pub semantic_contract: SemanticContract,
    /// In billionths.
    pub tree_error_ratio_tolerance: u32,
}

fn saturating_product(a: u32, b: u32) -> (r: u32)
    ensures
        r == u32_capped(a * b),
{
    proof {
        assert(a as u64 * b as u64 <= 0xffff_ffffu64 * 0xffff_ffffu64) by (nonlinear_arith)
            requires
                a <= 0xffff_ffff,
                b <= 0xffff_ffff,
        ;
    }
    let product: u64 = a as u64 * b as u64;
    if product >= u32::MAX as u64 {
        u32::MAX
    } else {
        product as u32
    }
}

fn saturating_plus(a: u32, b: u32) -> (r: u32)
    ensures
        r == u32_capped(a + b),
{
    if b > u32::MAX - a {
        u32::MAX
    } else {
        a + b
    }
}

/// How far diagnostics may grow where the compiler's options were guessed, by
/// how they were guessed and how far the file is trusted.
pub open spec fn consensus_limits(kind: SemanticCompdbContextKind, trust: u32) -> Option<
    ConsensusTolerance,
> {
    let number: u8 = match kind {
        SemanticCompdbContextKind::PairedSourceHeuristic => 0,
        SemanticCompdbContextKind::HeaderConsensus => 1,
        _ => 2,
    };
    let factor = fuzzy_inference::interp(trust, 1_400_000_000, 1_000_000_000, 700_000_000);
    if kind.is_inferred() {
        Some(
            ConsensusTolerance {
                delta_limit: fuzzy_inference::scaled(
                    fuzzy_inference::context_base(number).0,
                    factor,
                ) as u32,
                radius: fuzzy_inference::scaled(
                    fuzzy_inference::context_base(number).1,
                    factor,
                ) as usize,
            },
        )
    } else {
        None
    }
}

impl PostEditChecker {
    pub fn new(
        fail_on_parser_unavailable: bool,
        tree_error_ratio_tolerance: u32,
        semantic_contract: SemanticContract,
    ) -> (r: PostEditChecker)
        ensures
            r.fail_on_parser_unavailable == fail_on_parser_unavailable,
            r.semantic_contract == semantic_contract,
            r.tree_error_ratio_tolerance == if tree_error_ratio_tolerance > FULL_RATIO {
                FULL_RATIO
            } else {
                tree_error_ratio_tolerance
            },
    {
        PostEditChecker {
            fail_on_parser_unavailable,
            semantic_contract,
            tree_error_ratio_tolerance: if tree_error_ratio_tolerance > FULL_RATIO {
                FULL_RATIO
            } else {
                tree_error_ratio_tolerance
            },
        }
    }

    /// What the diagnostics of a text weigh together.
    pub fn diagnostic_weighted_score(
        summary: ClangDiagnosticSummary,
        weights: DiagnosticWeights,
    ) -> (r: u32)
        ensures
            r == weighted(summary, weights),
    {
        let notes = saturating_product(summary.note as u32, weights.note);
        let warnings = saturating_product(summary.warning as u32, weights.warning);
        let errors = saturating_product(summary.error as u32, weights.error);
        let fatals = saturating_product(summary.fatal as u32, weights.fatal);
        proof {
            lemma_product(summary.note as u32, weights.note);
            lemma_product(summary.warning as u32, weights.warning);
            lemma_product(summary.error as u32, weights.error);
            lemma_product(summary.fatal as u32, weights.fatal);
        }
        saturating_plus(saturating_plus(saturating_plus(notes, warnings), errors), fatals)
    }

    /// The numbers of a text's diagnostics as they are shown.
    pub fn diagnostic_summary_label(summary: ClangDiagnosticSummary) -> (r: String)
        ensures
            r@ == summary_label(summary),
    {
        let mut r = "fatal=".to_owned();
        r.append(decimal_of(summary.fatal).as_str());
        r.append(" error=");
        r.append(decimal_of(summary.error).as_str());
        r.append(" warning=");
        r.append(decimal_of(summary.warning).as_str());
        r.append(" note=");
        r.append(decimal_of(summary.note).as_str());
        r
    }

    fn count_entry(entries: &[ClangDiagnosticEntry], entry: ClangDiagnosticEntry) -> (r: usize)
        ensures
            r == occurrences(entries@, entry),
    {
        let mut r: usize = 0;
        let mut i: usize = 0;
        while i < entries.len()
            invariant
                i <= entries@.len(),
                r <= i,
                r == occurrences(entries@.take(i as int), entry),
            decreases entries@.len() - i,
        {
            assert(entries@.take(i + 1).drop_last() =~= entries@.take(i as int));
            if entries[i] == entry {
                r += 1;
            }
            i += 1;
        }
        assert(entries@.take(entries@.len() as int) =~= entries@);
        r
    }

    /// The lines of the diagnostics that occur more often than before.
    pub fn diagnostic_delta_lines(
        before: &[ClangDiagnosticEntry],
        after: &[ClangDiagnosticEntry],
    ) -> (r: BTreeSet<usize>)
        ensures
            r@ == new_lines(before@, after@, after@.len() as int),
    {
        let mut r = BTreeSet::<usize>::new();
        let mut i: usize = 0;
        assert(r@ =~= Set::empty());
        while i < after.len()
            invariant
                i <= after@.len(),
                r@ == new_lines(before@, after@, i as int),
            decreases after@.len() - i,
        {
            let entry = after[i];
            if entry.line > 0 && Self::count_entry(after, entry) > Self::count_entry(
                before,
                entry,
            ) {
                r.insert(entry.line);
            }
            i += 1;
        }
        r
    }

    /// Tests whether new diagnostics may be due to guessed options.
    pub fn should_tolerate_nonlocal_diagnostic_delta_for_context(
        context: CompdbContext,
        edited_lines: Option<&BTreeSet<usize>>,
        delta_lines: &BTreeSet<usize>,
        severe_delta: usize,
        weighted_delta: u32,
        limit: ConsensusTolerance,
    ) -> (r: bool)
        ensures
            r == tolerates(
                context,
                crate::semantic_contract::transition::lines_view(edited_lines),
                delta_lines@,
                severe_delta,
                weighted_delta,
                limit,
            ),
    {
        let edited = match edited_lines {
            Some(edited) => edited,
            None => {
                return false;
            },
        };
        if edited.len() == 0 || delta_lines.len() == 0 {
            return false;
        }
        if context.exact || severe_delta > 1 || weighted_delta > limit.delta_limit {
            return false;
        }
        match context.kind {
            SemanticCompdbContextKind::PairedSourceHeuristic
            | SemanticCompdbContextKind::HeaderConsensus
            | SemanticCompdbContextKind::SourceConsensus => {},
            SemanticCompdbContextKind::Exact | SemanticCompdbContextKind::Absent => {
                return false;
            },
        }
        let list = lines_of(delta_lines);
        let mut i: usize = 0;
        while i < list.len()
            invariant
                i <= list@.len(),
                edited_lines == Some(edited),
                list@.to_set() == delta_lines@,
                forall|k: int|
                    #![trigger list@[k]]
                    0 <= k < i ==> list@[k] > 0 && !lines::near(
                        list@[k],
                        edited@,
                        limit.radius,
                    ),
            decreases list@.len() - i,
        {
            if list[i] == 0 || line_near(list[i], edited, limit.radius) {
                assert(list@.to_set().contains(list@[i as int]));
                return false;
            }
            i += 1;
        }
        assert forall|line: usize| #[trigger] delta_lines@.contains(line) implies line > 0
            && !lines::near(line, edited@, limit.radius) by {
            assert(list@.to_set().contains(line));
            let k = choose|k: int| 0 <= k < list@.len() && list@[k] == line;
            assert(list@[k] > 0);
        }
        true
    }

    /// Tests whether the check leaves the compiler out.
    pub fn should_skip_nonexact_consensus_clang_validation_for_context(
        context: CompdbContext,
    ) -> (r: bool)
        ensures
            r == skips_clang(context),
    {
        !context.exact && match context.kind {
            SemanticCompdbContextKind::HeaderConsensus
            | SemanticCompdbContextKind::SourceConsensus => true,
            _ => false,
        }
    }

    /// What an edit may cost in references and in scopes before anything is
    /// known of the file: less where the compiler's options are exact.
    pub fn base_transition_tolerances(kind: SemanticCompdbContextKind) -> (r: (usize, usize))
        ensures
            r == if kind == SemanticCompdbContextKind::Exact {
                (2usize, 1usize)
            } else {
                (4usize, 3usize)
            },
    {
        match kind {
            SemanticCompdbContextKind::Exact => (2, 1),
            _ => (4, 3),
        }
    }

    /// How far diagnostics may grow where the compiler's options were guessed,
    /// by how they were guessed and how far the file is trusted.
    pub fn consensus_tolerance(kind: SemanticCompdbContextKind, trust: u32) -> (r: Option<
        ConsensusTolerance,
    >)
        ensures
            r == consensus_limits(kind, trust),
            r is Some <==> kind.is_inferred(),
    {
        let number: u8 = match kind {
            SemanticCompdbContextKind::PairedSourceHeuristic => 0,
            SemanticCompdbContextKind::HeaderConsensus => 1,
            SemanticCompdbContextKind::SourceConsensus => 2,
            _ => {
                return None;
            },
        };
        proof {
            fuzzy_inference::lemma_interp_bounds(trust, 1_400_000_000, 1_000_000_000, 700_000_000);
        }
        let (limit, radius) = fuzzy_context_tol(number, trust);
        Some(ConsensusTolerance { delta_limit: limit as u32, radius })
    }

    /// What an edit may cost in references and in scopes, by what is known of
    /// the file.
    pub fn semantic_transition_tolerances_for_context(
        kind: SemanticCompdbContextKind,
        edited_lines: Option<&BTreeSet<usize>>,
        certainty: Option<&PolicyCertainty>,
    ) -> (r: (usize, usize))
        ensures
            ({
                let (base_ref, base_scope) = if kind == SemanticCompdbContextKind::Exact {
                    (2usize, 1usize)
                } else {
                    (4usize, 3usize)
                };
                let tols = fuzzy_inference::transition_tols(
                    kind,
                    base_ref,
                    base_scope,
                    match certainty {
                        Some(c) => Some(*c),
                        None => None,
                    },
                    crate::semantic_contract::transition::lines_view(edited_lines),
                );
                r.0 == tols.0 && r.1 == tols.1
            }),
    {
        let (base_ref, base_scope) = Self::base_transition_tolerances(kind);
        fuzzy_transition_tols(kind, base_ref, base_scope, certainty, edited_lines)
    }
}

proof fn lemma_product(a: u32, b: u32)
    ensures
        a * b >= 0,
{
    assert(a * b >= 0) by (nonlinear_arith);
}

/// A new diagnostic is found whatever stands before it.
pub proof fn lemma_new_lines(
    before: Seq<ClangDiagnosticEntry>,
    after: Seq<ClangDiagnosticEntry>,
    n: int,
    line: usize,
)
    requires
        0 <= n <= after.len(),
    ensures
        new_lines(before, after, n).contains(line) <==> exists|i: int|
            0 <= i < n && is_new(before, after, #[trigger] after[i]) && after[i].line == line,
    decreases n,
{
    if n > 0 {
        lemma_new_lines(before, after, n - 1, line);
        if new_lines(before, after, n).contains(line) && !new_lines(
            before,
            after,
            n - 1,
        ).contains(line) {
            assert(is_new(before, after, after[n - 1]) && after[n - 1].line == line);
        }
    }
}

/// The same diagnostics are no news.
pub proof fn lemma_same_diagnostics(entries: Seq<ClangDiagnosticEntry>)
    ensures
        new_lines(entries, entries, entries.len() as int).len() == 0,
{
    assert forall|line: usize| !new_lines(entries, entries, entries.len() as int).contains(
        line,
    ) by {
        lemma_new_lines(entries, entries, entries.len() as int, line);
    }
    assert(new_lines(entries, entries, entries.len() as int) =~= Set::empty());
}

/// The compiler is left out exactly where its options were agreed on by other
/// files and the file has none of its own.
pub proof fn lemma_when_the_compiler_is_left_out(context: CompdbContext)
    ensures
        skips_clang(context) <==> !context.exact && (context.kind
            == SemanticCompdbContextKind::HeaderConsensus || context.kind
            == SemanticCompdbContextKind::SourceConsensus),
{
}

/// What is tolerated of new diagnostics: nothing with exact options, nothing
/// near an edited line, not two errors, and nothing heavier than the limit.
pub proof fn lemma_what_is_tolerated(
    context: CompdbContext,
    edited: Set<usize>,
    delta: Set<usize>,
    severe: usize,
    weight: u32,
    limit: ConsensusTolerance,
    line: usize,
    e: usize,
)
    ensures
        context.exact ==> !tolerates(context, Some(edited), delta, severe, weight, limit),
        severe > 1 ==> !tolerates(context, Some(edited), delta, severe, weight, limit),
        weight > limit.delta_limit ==> !tolerates(
            context,
            Some(edited),
            delta,
            severe,
            weight,
            limit,
        ),
        delta.contains(line) && line > 0 && edited.contains(e) && line <= e + limit.radius && e
            <= line + limit.radius ==> !tolerates(
            context,
            Some(edited),
            delta,
            severe,
            weight,
            limit,
        ),
        !tolerates(context, None, delta, severe, weight, limit),
{
    if delta.contains(line) && line > 0 && edited.contains(e) && line <= e + limit.radius && e
        <= line + limit.radius {
        assert(lines::near(line, edited, limit.radius));
    }
}

/// Options that were not guessed from other files give no tolerance.
pub proof fn lemma_no_guess_no_tolerance(kind: SemanticCompdbContextKind, trust: u32)
    ensures
        consensus_limits(kind, trust) is Some <==> kind
            == SemanticCompdbContextKind::PairedSourceHeuristic || kind
            == SemanticCompdbContextKind::HeaderConsensus || kind
            == SemanticCompdbContextKind::SourceConsensus,
{
}

} // verus!
