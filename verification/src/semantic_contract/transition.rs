//! What an edit changed in the semantics of a file.
use std::collections::BTreeSet;
use vstd::prelude::*;

use crate::file_context::ScopeNode;
use crate::lines;
use crate::lines::{any_between, extend_lines, line_hint, lines_of};
use crate::model::warn;
use crate::names;
use crate::names::{NameMap, NameSet};
use crate::ranges;
use crate::ranges::line_in_ranges;
use crate::semantic_contract::snapshot;
use crate::semantic_contract::snapshot::{
    ScopeRange, SemanticContractSnapshot, SemanticScopeCounts, SnapshotView,
};
use crate::text;
use crate::text::{decimal_of, str_eq};

verus! {

broadcast use {
    vstd::std_specs::btree::group_btree_axioms,
    vstd::laws_cmp::group_laws_cmp,
};

/// How bad a regression is: a share of the whole, never more than all of it.
#[derive(Clone, Copy, Debug, PartialEq, Eq, Structural)]
pub struct Severity {
    pub part: usize,
    pub whole: usize,
}

impl Severity {
    /// The share of `part` in `whole`; a whole of zero counts as one.
    pub open spec fn of(part: int, whole: usize) -> Severity {
        let whole: usize = if whole == 0 {
            1
        } else {
            whole
        };
        Severity {
            part: if part >= whole {
                whole
            } else {
                part as usize
            },
            whole,
        }
    }

    pub open spec fn none() -> Severity {
        Severity { part: 0, whole: 1 }
    }

    fn share(part: usize, more: usize, whole: usize) -> (r: Severity)
        ensures
            r == Severity::of(part + more, whole),
    {
        let whole: usize = if whole == 0 {
            1
        } else {
            whole
        };
        let part: usize = if part >= whole || more >= whole || part >= whole - more {
            whole
        } else {
            part + more
        };
        Severity { part, whole }
    }
}

/// What each kind of regression adds to the failure score.
#[derive(Clone, Copy, Debug, PartialEq, Eq, Structural)]
pub struct TransitionPenalties {
    pub identity: u32,
    pub reference: u32,
    pub usage: u32,
    pub orphan: u32,
    pub scope: u32,
}

/// What an edit did to the semantics of a file.
#[derive(Debug)]
pub struct SemanticTransitionAssessment {
    pub failure_messages: Vec<String>,
    pub warning_messages: Vec<String>,
    pub failure_score_delta: u32,
    pub culprit_lines: BTreeSet<usize>,
    pub identity_integrity_regressed: bool,
    pub reference_integrity_regressed: bool,
    pub scope_integrity_regressed: bool,
    pub identity_severity: Severity,
    pub reference_severity: Severity,
    pub scope_severity: Severity,
}

/// The value of an assessment.
#[verifier::ext_equal]
pub ghost struct TransitionView {
    pub failures: Seq<Seq<char>>,
    pub warnings: Seq<Seq<char>>,
    pub score: u32,
    pub culprits: Set<usize>,
    pub identity_regressed: bool,
    pub reference_regressed: bool,
    pub scope_regressed: bool,
    pub identity_severity: Severity,
    pub reference_severity: Severity,
    pub scope_severity: Severity,
}

impl View for SemanticTransitionAssessment {
    type V = TransitionView;

    open spec fn view(&self) -> TransitionView {
        TransitionView {
            failures: text::views(self.failure_messages@),
            warnings: text::views(self.warning_messages@),
            score: self.failure_score_delta,
            culprits: self.culprit_lines@,
            identity_regressed: self.identity_integrity_regressed,
            reference_regressed: self.reference_integrity_regressed,
            scope_regressed: self.scope_integrity_regressed,
            identity_severity: self.identity_severity,
            reference_severity: self.reference_severity,
            scope_severity: self.scope_severity,
        }
    }
}

impl TransitionView {
    /// Nothing changed.
    pub open spec fn unchanged() -> TransitionView {
        TransitionView {
            failures: Seq::empty(),
            warnings: Seq::empty(),
            score: 0,
            culprits: Set::empty(),
            identity_regressed: false,
            reference_regressed: false,
            scope_regressed: false,
            identity_severity: Severity::none(),
            reference_severity: Severity::none(),
            scope_severity: Severity::none(),
        }
    }
}

/// A score that grew; it stops at the largest number there is.
pub open spec fn raised(score: u32, by: int) -> u32 {
    if score + by >= u32::MAX {
        u32::MAX
    } else {
        (score + by) as u32
    }
}

/// The smaller of two numbers.
pub open spec fn at_most(n: int, limit: int) -> int {
    if n < limit {
        n
    } else {
        limit
    }
}

/// How far a count rose.
pub open spec fn rise(from: usize, to: usize) -> usize {
    if to > from {
        (to - from) as usize
    } else {
        0
    }
}

/// Whether a symbol can be of the given kind: its kind is the same, or one of
/// both is unknown.
pub open spec fn compatible(s: SnapshotView, id: Seq<char>, kind: Option<i32>) -> bool {
    kind is Some && s.kind_by_decl_id.dom().contains(id) ==> s.kind_by_decl_id[id] == kind->Some_0
}

/// The symbols on a line that can be of the given kind.
pub open spec fn compatible_on(s: SnapshotView, line: usize, kind: Option<i32>) -> Set<Seq<char>> {
    Set::new(
        |id: Seq<char>| s.decl_ids_by_line.contains((line, id)) && compatible(s, id, kind),
    )
}

/// A symbol that went away, as it was.
pub ghost struct Departed {
    pub id: Seq<char>,
    pub line: usize,
    pub kind: Option<i32>,
    pub uses: usize,
}

/// Whether a symbol on a line stands in for one that went away: it has the
/// same identity, or can be of its kind and is the only such symbol on the
/// line, or is used about as often.
pub open spec fn stands_in(s: SnapshotView, line: usize, id: Seq<char>, gone: Departed) -> bool {
    id == gone.id || (compatible(s, id, gone.kind) && (compatible_on(s, line, gone.kind).len() == 1
        || gone.uses == 0 || snapshot::count_of(s.ref_id_counts, id) >= gone.uses - 1))
}

/// Whether a symbol that went away turned up within `shift` lines.
pub open spec fn migrated(s: SnapshotView, gone: Departed, shift: usize) -> bool {
    gone.line != 0 && exists|line: usize, id: Seq<char>| #[trigger]
        s.decl_ids_by_line.contains((line, id)) && gone.line - shift <= line <= gone.line + shift
            && stands_in(s, line, id, gone)
}

/// How often a symbol is used.
pub open spec fn uses_of(s: SnapshotView, id: Seq<char>) -> usize {
    if s.ref_id_counts.dom().contains(id) {
        s.ref_id_counts[id]
    } else {
        snapshot::count_of(s.usr_ref_counts, id)
    }
}

/// A symbol of a snapshot.
pub open spec fn departed(s: SnapshotView, id: Seq<char>) -> Departed {
    Departed {
        id,
        line: snapshot::count_of(s.id_decl_lines, id),
        kind: if s.kind_by_decl_id.dom().contains(id) {
            Some(s.kind_by_decl_id[id])
        } else {
            None
        },
        uses: uses_of(s, id),
    }
}

/// Whether a symbol is missing after the edit.
pub open spec fn is_missing(
    before: SnapshotView,
    after: SnapshotView,
    shift: usize,
    id: Seq<char>,
) -> bool {
    !after.decl_ids.contains(id) && !migrated(after, departed(before, id), shift)
}

/// The symbols that are missing after the edit.
pub open spec fn missing(before: SnapshotView, after: SnapshotView, shift: usize) -> Set<
    Seq<char>,
> {
    before.decl_ids.filter(|id: Seq<char>| is_missing(before, after, shift, id))
}

/// Whether one of the symbols has the line.
pub open spec fn has_line(ids: Set<Seq<char>>, found: Map<Seq<char>, usize>, line: usize) -> bool {
    exists|id: Seq<char>| #[trigger]
        ids.contains(id) && found.dom().contains(id) && found[id] == line
}

/// The lines of some symbols.
pub open spec fn lines_for(ids: Set<Seq<char>>, found: Map<Seq<char>, usize>) -> Set<usize> {
    Set::new(|line: usize| line > 0 && has_line(ids, found, line))
}

/// The lines of some symbols, counted from one.
pub open spec fn shown_lines_for(ids: Set<Seq<char>>, found: Map<Seq<char>, usize>) -> Set<usize> {
    if has_line(ids, found, 0) {
        lines_for(ids, found).insert(1)
    } else {
        lines_for(ids, found)
    }
}

proof fn lemma_lines_for(ids: Set<Seq<char>>, found: Map<Seq<char>, usize>, id: Seq<char>)
    ensures
        lines_for(ids.insert(id), found) == if found.dom().contains(id) && found[id] > 0 {
            lines_for(ids, found).insert(found[id])
        } else {
            lines_for(ids, found)
        },
        has_line(ids.insert(id), found, 0) == (has_line(ids, found, 0) || (found.dom().contains(id)
            && found[id] == 0)),
{
    let more = ids.insert(id);
    assert forall|line: usize| has_line(more, found, line) == (has_line(ids, found, line) || (
    found.dom().contains(id) && found[id] == line)) by {
        if has_line(more, found, line) {
            let x = choose|x: Seq<char>| #[trigger]
                more.contains(x) && found.dom().contains(x) && found[x] == line;
            if x != id {
                assert(ids.contains(x));
            }
        }
        if has_line(ids, found, line) {
            let x = choose|x: Seq<char>| #[trigger]
                ids.contains(x) && found.dom().contains(x) && found[x] == line;
            assert(more.contains(x));
        }
        assert(more.contains(id));
    }
    let want = if found.dom().contains(id) && found[id] > 0 {
        lines_for(ids, found).insert(found[id])
    } else {
        lines_for(ids, found)
    };
    assert(lines_for(more, found) =~= want);
}

proof fn lemma_shown_lines_for(ids: Set<Seq<char>>, found: Map<Seq<char>, usize>, id: Seq<char>)
    ensures
        shown_lines_for(ids.insert(id), found) == if found.dom().contains(id) {
            shown_lines_for(ids, found).insert(snapshot::at_least_one(found[id]))
        } else {
            shown_lines_for(ids, found)
        },
{
    lemma_lines_for(ids, found, id);
    assert(shown_lines_for(ids.insert(id), found) =~= if found.dom().contains(id) {
        shown_lines_for(ids, found).insert(snapshot::at_least_one(found[id]))
    } else {
        shown_lines_for(ids, found)
    });
}

/// The lines on which the identities of a file regressed.
pub open spec fn identity_culprits(before: SnapshotView, after: SnapshotView, shift: usize) -> Set<
    usize,
> {
    let gone = lines_for(missing(before, after, shift), before.id_decl_lines);
    if after.identity_count > before.identity_count {
        gone.union(after.identity_lines)
    } else {
        gone
    }
}

/// How much of a file's identities regressed.
pub open spec fn identity_share(before: SnapshotView, after: SnapshotView, shift: usize) -> Severity {
    Severity::of(
        missing(before, after, shift).len() + rise(before.identity_count, after.identity_count),
        before.decl_ids.len() as usize,
    )
}

/// Symbols that are missing, and identities that became inconsistent, are a
/// failure. Without either, a changed signature under edited lines draws a
/// warning.
pub open spec fn identity_step(
    was: TransitionView,
    before: SnapshotView,
    after: SnapshotView,
    shift: usize,
    edited: Option<Set<usize>>,
    penalty: u32,
    severity: Seq<char>,
) -> TransitionView {
    let gone = missing(before, after, shift).len();
    let added = rise(before.identity_count, after.identity_count);
    let culprits = identity_culprits(before, after, shift);
    let share = identity_share(before, after, shift);
    if gone > 0 || added > 0 {
        TransitionView {
            identity_severity: share,
            identity_regressed: true,
            score: raised(was.score, penalty + at_most(gone as int, 8) * 4),
            culprits: was.culprits.union(culprits),
            failures: was.failures.push(
                "post-edit check failed: semantic symbol identity regressed (missing_stable_ids="@
                    + text::decimal(gone) + ", added_identity_issues="@ + text::decimal(
                    added as nat,
                ) + ", severity="@ + severity + ", lines="@ + lines::hint(culprits, 8) + ")"@,
            ),
            ..was
        }
    } else if edited is Some && edited->Some_0.len() > 0 && before.summary.semantic_signature
        != after.summary.semantic_signature {
        TransitionView {
            identity_severity: share,
            warnings: was.warnings.push(
                "post-edit check warning: semantic identity signature changed under edited lines "@
                    + lines::hint(edited->Some_0, 8),
            ),
            ..was
        }
    } else {
        TransitionView { identity_severity: share, ..was }
    }
}

/// The symbols that lost more uses than tolerated.
pub open spec fn dropped(before: SnapshotView, after: SnapshotView, tolerance: usize) -> Set<
    Seq<char>,
> {
    before.usr_ref_counts.dom().filter(
        |id: Seq<char>|
            before.usr_ref_counts[id] > snapshot::count_of(after.usr_ref_counts, id) + tolerance,
    )
}

/// How many uses of a symbol lost their declaration.
pub open spec fn orphaned(before: SnapshotView, after: SnapshotView, id: Seq<char>) -> nat {
    let old_uses = if before.decl_ids.contains(id) {
        0
    } else {
        snapshot::count_of(before.ref_id_counts, id)
    };
    let uses = snapshot::count_of(after.ref_id_counts, id);
    if after.decl_ids.contains(id) || uses <= old_uses {
        0
    } else {
        (uses - old_uses) as nat
    }
}

/// The symbols whose uses lost their declaration.
pub open spec fn orphans(before: SnapshotView, after: SnapshotView) -> Set<Seq<char>> {
    after.ref_id_counts.dom().filter(|id: Seq<char>| orphaned(before, after, id) > 0)
}

/// How many uses lost their declaration.
pub open spec fn orphan_count(before: SnapshotView, after: SnapshotView) -> usize {
    at_most(
        names::total(
            after.ref_id_counts.dom(),
            |id: Seq<char>| orphaned(before, after, id),
        ) as int,
        usize::MAX as int,
    ) as usize
}

/// The lines of the symbols that lost uses.
pub open spec fn drop_culprits(before: SnapshotView, after: SnapshotView, tolerance: usize) -> Set<
    usize,
> {
    let lost = shown_lines_for(dropped(before, after, tolerance), before.usr_decl_lines);
    if after.mismatch_count > before.mismatch_count {
        lost.union(after.mismatch_lines)
    } else {
        lost
    }
}

/// How much of a file's references regressed.
pub open spec fn reference_share(
    before: SnapshotView,
    after: SnapshotView,
    tolerance: usize,
) -> Severity {
    Severity::of(
        dropped(before, after, tolerance).len() + rise(before.mismatch_count, after.mismatch_count)
            + orphan_count(before, after),
        before.usr_ref_counts.dom().len() as usize,
    )
}

/// Uses that went away beyond the tolerance.
pub open spec fn drop_step(
    was: TransitionView,
    before: SnapshotView,
    after: SnapshotView,
    tolerance: usize,
    penalty: u32,
) -> TransitionView {
    let lost = dropped(before, after, tolerance).len();
    let culprits = drop_culprits(before, after, tolerance);
    if lost > 0 {
        TransitionView {
            reference_regressed: true,
            score: raised(was.score, penalty + at_most(lost as int, 16) * 3),
            culprits: was.culprits.union(culprits),
            failures: was.failures.push(
                "post-edit check failed: semantic declaration-reference connectivity regressed (drops="@
                    + text::decimal(lost) + ", tolerance="@ + text::decimal(tolerance as nat)
                    + ", lines="@ + lines::hint(culprits, 8) + ")"@,
            ),
            ..was
        }
    } else {
        was
    }
}

/// Uses that no longer agree with the kind of their declaration.
pub open spec fn usage_step(
    was: TransitionView,
    before: SnapshotView,
    after: SnapshotView,
    penalty: u32,
) -> TransitionView {
    let more = rise(before.mismatch_count, after.mismatch_count);
    if more > 0 {
        TransitionView {
            reference_regressed: true,
            score: raised(was.score, penalty + at_most(more as int, 16) * 2),
            culprits: was.culprits.union(after.mismatch_lines),
            failures: was.failures.push(
                "post-edit check failed: semantic usage-role consistency regressed ("@
                    + text::decimal(before.mismatch_count as nat) + " -> "@ + text::decimal(
                    after.mismatch_count as nat,
                ) + ", lines="@ + lines::hint(after.mismatch_lines, 8) + ")"@,
            ),
            ..was
        }
    } else {
        was
    }
}

/// Uses whose declaration is gone.
pub open spec fn orphan_step(
    was: TransitionView,
    before: SnapshotView,
    after: SnapshotView,
    penalty: u32,
) -> TransitionView {
    let count = orphan_count(before, after);
    let culprits = shown_lines_for(orphans(before, after), after.ref_first_line);
    if count > 0 {
        TransitionView {
            reference_regressed: true,
            score: raised(was.score, penalty + at_most(count as int, 16) * 2),
            culprits: was.culprits.union(culprits),
            failures: was.failures.push(
                "post-edit check failed: orphan semantic references introduced (count="@
                    + text::decimal(count as nat) + ", lines="@ + lines::hint(culprits, 8) + ")"@,
            ),
            ..was
        }
    } else {
        was
    }
}

/// The references of a file: uses that went away, uses of another kind, and
/// uses without a declaration.
pub open spec fn reference_step(
    was: TransitionView,
    before: SnapshotView,
    after: SnapshotView,
    tolerance: usize,
    penalties: TransitionPenalties,
) -> TransitionView {
    let shared = TransitionView {
        reference_severity: reference_share(before, after, tolerance),
        ..was
    };
    let first = drop_step(shared, before, after, tolerance, penalties.reference);
    let second = usage_step(first, before, after, penalties.usage);
    orphan_step(second, before, after, penalties.orphan)
}

/// How far apart two numbers are.
pub open spec fn apart(a: usize, b: usize) -> int {
    if a < b {
        b - a
    } else {
        a - b
    }
}

/// How far the numbers of scopes moved, as far as it can be counted.
pub open spec fn count_drift(a: SemanticScopeCounts, b: SemanticScopeCounts) -> usize {
    at_most(
        apart(a.namespace, b.namespace) + apart(a.type_scope, b.type_scope) + apart(
            a.function,
            b.function,
        ) + apart(a.preprocessor, b.preprocessor),
        usize::MAX as int,
    ) as usize
}

/// How many scopes of code there are, as far as they can be counted.
pub open spec fn code_scopes(a: SemanticScopeCounts) -> usize {
    at_most(a.namespace + a.type_scope + a.function, usize::MAX as int) as usize
}

/// Whether scopes of this node are compared.
pub open spec fn is_tracked(node: ScopeNode) -> bool {
    !(node is Other)
}

/// The scopes that are there on one side of the edit only.
pub open spec fn drifted(before: SnapshotView, after: SnapshotView) -> Set<ScopeRange> {
    before.ranges_by_kind.difference(after.ranges_by_kind).union(
        after.ranges_by_kind.difference(before.ranges_by_kind),
    ).filter(|r: ScopeRange| is_tracked(r.node))
}

/// How far from a scope an edit still counts as local.
pub const DRIFT_RADIUS: usize = 1;

/// Whether a scope lies at an edited line.
pub open spec fn is_local(range: ScopeRange, edited: Option<Set<usize>>) -> bool {
    edited is Some && lines::has_between(
        edited->Some_0,
        range.start - DRIFT_RADIUS,
        range.end + DRIFT_RADIUS,
    )
}

/// How many scopes moved at edited lines.
pub open spec fn local_drift(
    before: SnapshotView,
    after: SnapshotView,
    edited: Option<Set<usize>>,
) -> usize {
    at_most(
        drifted(before, after).filter(|r: ScopeRange| is_local(r, edited)).len() as int,
        usize::MAX as int,
    ) as usize
}

/// How many scopes moved elsewhere.
pub open spec fn remote_drift(
    before: SnapshotView,
    after: SnapshotView,
    edited: Option<Set<usize>>,
) -> usize {
    at_most(
        drifted(before, after).filter(|r: ScopeRange| !is_local(r, edited)).len() as int,
        usize::MAX as int,
    ) as usize
}

/// Whether one of the scopes starts on the line.
pub open spec fn starts_on(scopes: Set<ScopeRange>, line: usize) -> bool {
    exists|r: ScopeRange| #[trigger]
        scopes.contains(r) && snapshot::at_least_one(r.start) == line
}

/// The first lines of the scopes that moved.
pub open spec fn drift_lines(scopes: Set<ScopeRange>) -> Set<usize> {
    Set::new(|line: usize| starts_on(scopes, line))
}

/// The scopes of a file: their numbers, and the places of those that no edit
/// touched, may move no further than tolerated.
pub open spec fn scope_step(
    was: TransitionView,
    before: SnapshotView,
    after: SnapshotView,
    tolerance: usize,
    edited: Option<Set<usize>>,
    penalty: u32,
) -> TransitionView {
    let counts = count_drift(before.counts, after.counts);
    let local = local_drift(before, after, edited);
    let remote = remote_drift(before, after, edited);
    let shared = TransitionView {
        scope_severity: Severity::of(counts + remote, code_scopes(before.counts)),
        ..was
    };
    if counts > tolerance || remote > tolerance {
        TransitionView {
            scope_regressed: true,
            score: raised(was.score, penalty as int),
            culprits: was.culprits.union(drift_lines(drifted(before, after))),
            failures: was.failures.push(
                "post-edit check failed: semantic scope structural drift detected (count_drift="@
                    + text::decimal(counts as nat) + ", local_range_drift="@ + text::decimal(
                    local as nat,
                ) + ", remote_range_drift="@ + text::decimal(remote as nat) + ", tolerance="@
                    + text::decimal(tolerance as nat) + ")"@,
            ),
            ..shared
        }
    } else {
        shared
    }
}

/// The edited lines that lie in a preprocessor region before or after.
pub open spec fn macro_lines(before: SnapshotView, after: SnapshotView, edited: Set<usize>) -> Set<
    usize,
> {
    edited.filter(
        |line: usize|
            ranges::covered(line, before.preprocessor_ranges) || ranges::covered(
                line,
                after.preprocessor_ranges,
            ),
    )
}

/// Edits in preprocessor regions draw a warning.
pub open spec fn macro_step(
    was: TransitionView,
    before: SnapshotView,
    after: SnapshotView,
    edited: Option<Set<usize>>,
) -> TransitionView {
    if edited is Some && macro_lines(before, after, edited->Some_0).len() > 0 {
        TransitionView {
            warnings: was.warnings.push(
                "post-edit check warning: macro-safety clause triggered for edited lines "@
                    + lines::hint(macro_lines(before, after, edited->Some_0), 8),
            ),
            ..was
        }
    } else {
        was
    }
}

/// What an edit did: to identities, to references, to scopes and to
/// preprocessor regions.
pub open spec fn transition(
    before: SnapshotView,
    after: SnapshotView,
    ref_drop_tol: usize,
    scope_drift_tol: usize,
    identity_shift_tol: usize,
    edited: Option<Set<usize>>,
    penalties: TransitionPenalties,
    severity: Seq<char>,
) -> TransitionView {
    let identity = identity_step(
        TransitionView::unchanged(),
        before,
        after,
        identity_shift_tol,
        edited,
        penalties.identity,
        severity,
    );
    let references = reference_step(identity, before, after, ref_drop_tol, penalties);
    let scopes = scope_step(
        references,
        before,
        after,
        scope_drift_tol,
        edited,
        penalties.scope,
    );
    macro_step(scopes, before, after, edited)
}

/// The lines of an optional set.
pub open spec fn lines_view(edited: Option<&BTreeSet<usize>>) -> Option<Set<usize>> {
    match edited {
        Some(lines) => Some(lines@),
        None => None,
    }
}

fn count_in(counts: &NameMap<usize>, id: &str) -> (r: usize)
    ensures
        r == snapshot::count_of(counts@, id@),
{
    match counts.get(id) {
        Some(n) => n,
        None => 0,
    }
}

fn not_zero(line: usize) -> (r: usize)
    ensures
        r == snapshot::at_least_one(line),
{
    if line == 0 {
        1
    } else {
        line
    }
}

fn difference(from: usize, to: usize) -> (r: usize)
    ensures
        r == rise(from, to),
{
    if to > from {
        to - from
    } else {
        0
    }
}

fn is_compatible(after: &SemanticContractSnapshot, id: &str, kind: Option<i32>) -> (r: bool)
    ensures
        r == compatible(after@, id@, kind),
{
    match (kind, after.identity.kind_by_decl_id.get(id)) {
        (Some(wanted), Some(found)) => wanted == found,
        _ => true,
    }
}

/// The number of symbols on a line that can be of a kind.
fn compatible_count(after: &SemanticContractSnapshot, line: usize, kind: Option<i32>) -> (r: usize)
    ensures
        r == compatible_on(after@, line, kind).len(),
{
    let places = &after.identity.decl_ids_by_line;
    let ghost all = snapshot::line_names(places@);
    let mut found = NameSet::new();
    let mut i: usize = 0;
    let ghost want = compatible_on(after@, line, kind);
    assert(found@ =~= want.filter(|id: Seq<char>| all.take(0).contains((line, id))));
    while i < places.len()
        invariant
            i <= places@.len(),
            places == after.identity.decl_ids_by_line,
            all == snapshot::line_names(places@),
            want == compatible_on(after@, line, kind),
            found@ == want.filter(|id: Seq<char>| all.take(i as int).contains((line, id))),
        decreases places@.len() - i,
    {
        let place = &places[i];
        assert(all[i as int] == (place.line, place.name@));
        assert(all.contains(all[i as int]));
        let ghost was = found@;
        if place.line == line && is_compatible(after, place.name.as_str(), kind) {
            found = found.insert(place.name.as_str());
        }
        proof {
            let head = all.take(i as int);
            let next = all.take(i + 1);
            assert forall|id: Seq<char>| next.contains((line, id)) == (head.contains((line, id)) || (
            place.line == line && place.name@ == id)) by {
                if next.contains((line, id)) {
                    let k = choose|k: int| 0 <= k < next.len() && next[k] == (line, id);
                    if k < i {
                        assert(head[k] == (line, id));
                    }
                }
                if head.contains((line, id)) {
                    let k = choose|k: int| 0 <= k < head.len() && head[k] == (line, id);
                    assert(next[k] == (line, id));
                }
                assert(next[i as int] == all[i as int]);
            }
            assert(found@ =~= want.filter(|id: Seq<char>| next.contains((line, id))));
        }
        i += 1;
    }
    proof {
        assert(all.take(all.len() as int) =~= all);
        assert(found@ =~= want);
    }
    found.len()
}

/// Tests whether a symbol that went away turned up nearby.
pub fn identity_migrated_locally(
    stable_id: &str,
    declaration_line: usize,
    declaration_kind: Option<i32>,
    before_reference_count: usize,
    after: &SemanticContractSnapshot,
    line_shift_tolerance: usize,
) -> (r: bool)
    ensures
        r == migrated(
            after@,
            (Departed {
                id: stable_id@,
                line: declaration_line,
                kind: declaration_kind,
                uses: before_reference_count,
            }),
            line_shift_tolerance,
        ),
{
    if declaration_line == 0 {
        return false;
    }
    let ghost gone = Departed {
        id: stable_id@,
        line: declaration_line,
        kind: declaration_kind,
        uses: before_reference_count,
    };
    let from: usize = if declaration_line < line_shift_tolerance {
        0
    } else {
        declaration_line - line_shift_tolerance
    };
    let to: usize = if declaration_line > usize::MAX - line_shift_tolerance {
        usize::MAX
    } else {
        declaration_line + line_shift_tolerance
    };
    let places = &after.identity.decl_ids_by_line;
    let ghost all = snapshot::line_names(places@);
    let mut i: usize = 0;
    while i < places.len()
        invariant
            i <= places@.len(),
            places == after.identity.decl_ids_by_line,
            all == snapshot::line_names(places@),
            gone == (Departed {
                id: stable_id@,
                line: declaration_line,
                kind: declaration_kind,
                uses: before_reference_count,
            }),
            declaration_line > 0,
            from == 0 || from == declaration_line - line_shift_tolerance,
            from >= declaration_line - line_shift_tolerance,
            to == usize::MAX || to == declaration_line + line_shift_tolerance,
            to <= declaration_line + line_shift_tolerance,
            forall|k: int|
                #![trigger all[k]]
                0 <= k < i ==> !(from <= all[k].0 <= to && stands_in(
                    after@,
                    all[k].0,
                    all[k].1,
                    gone,
                )),
        decreases places@.len() - i,
    {
        let place = &places[i];
        assert(all[i as int] == (place.line, place.name@));
        assert(all.to_set().contains(all[i as int]));
        if from <= place.line && place.line <= to {
            let id = place.name.as_str();
            let mut stands = str_eq(id, stable_id);
            if !stands && is_compatible(after, id, declaration_kind) {
                stands = before_reference_count == 0 || compatible_count(
                    after,
                    place.line,
                    declaration_kind,
                ) == 1 || count_in(&after.identity.ref_id_counts, id) >= before_reference_count - 1;
            }
            if stands {
                assert(stands_in(after@, place.line, id@, gone));
                assert(after@.decl_ids_by_line.contains((place.line, id@)));
                return true;
            }
        }
        i += 1;
    }
    proof {
        if migrated(after@, gone, line_shift_tolerance) {
            let (line, id) = choose|line: usize, id: Seq<char>| #[trigger]
                after@.decl_ids_by_line.contains((line, id)) && gone.line - line_shift_tolerance
                    <= line <= gone.line + line_shift_tolerance && stands_in(
                    after@,
                    line,
                    id,
                    gone,
                );
            let k = choose|k: int| 0 <= k < all.len() && all[k] == (line, id);
            assert(from <= all[k].0 <= to);
        }
    }
    false
}

/// The missing symbols: how many, and their lines.
fn missing_symbols(
    before: &SemanticContractSnapshot,
    after: &SemanticContractSnapshot,
    shift: usize,
) -> (r: (usize, BTreeSet<usize>))
    ensures
        r.0 == missing(before@, after@, shift).len(),
        r.1@ == lines_for(missing(before@, after@, shift), before@.id_decl_lines),
        missing(before@, after@, shift).finite(),
{
    let ghost all = missing(before@, after@, shift);
    let mut count: usize = 0;
    let mut found = BTreeSet::<usize>::new();
    let n = before.identity.decl_ids.len();
    let ghost ids = before.identity.decl_ids.names();
    let mut i: usize = 0;
    assert(all.intersect(ids.take(0).to_set()) =~= Set::empty());
    assert(found@ =~= lines_for(all.intersect(ids.take(0).to_set()), before@.id_decl_lines));
    while i < n
        invariant
            i <= n,
            n == ids.len(),
            ids == before.identity.decl_ids.names(),
            ids.no_duplicates(),
            ids.to_set() == before@.decl_ids,
            all == missing(before@, after@, shift),
            count <= i,
            all.intersect(ids.take(i as int).to_set()).finite(),
            count == all.intersect(ids.take(i as int).to_set()).len(),
            found@ == lines_for(all.intersect(ids.take(i as int).to_set()), before@.id_decl_lines),
        decreases n - i,
    {
        let id = before.identity.decl_ids.name(i);
        let ghost head = all.intersect(ids.take(i as int).to_set());
        let ghost next = all.intersect(ids.take(i + 1).to_set());
        proof {
            names::lemma_take_insert(ids, i as int);
            assert(ids.to_set().contains(ids[i as int]));
            assert(next =~= if all.contains(id@) {
                head.insert(id@)
            } else {
                head
            });
        }
        if !after.identity.decl_ids.contains(id) {
            let line = count_in(&before.identity.id_decl_lines, id);
            let kind = before.identity.kind_by_decl_id.get(id);
            let uses: usize = match before.identity.ref_id_counts.get(id) {
                Some(n) => n,
                None => count_in(&before.identity.usr_ref_counts, id),
            };
            if !identity_migrated_locally(id, line, kind, uses, after, shift) {
                assert(all.contains(id@));
                proof {
                    lemma_lines_for(head, before@.id_decl_lines, id@);
                }
                if line > 0 {
                    found.insert(line);
                }
                count += 1;
            }
        }
        i += 1;
    }
    proof {
        assert(ids.take(n as int) =~= ids);
        assert(all.intersect(ids.to_set()) =~= all);
    }
    (count, found)
}

/// How much of a file's identities an edit cost.
pub fn identity_severity(
    before: &SemanticContractSnapshot,
    after: &SemanticContractSnapshot,
    identity_shift_tol: usize,
) -> (r: Severity)
    ensures
        r == identity_share(before@, after@, identity_shift_tol),
{
    let (gone, _) = missing_symbols(before, after, identity_shift_tol);
    let added = difference(before.issues.identity_count, after.issues.identity_count);
    Severity::share(gone, added, before.identity.decl_ids.len())
}

fn raise(score: u32, by: u32) -> (r: u32)
    ensures
        r == raised(score, by as int),
{
    if by > u32::MAX - score {
        u32::MAX
    } else {
        score + by
    }
}

fn capped(n: usize, limit: u32) -> (r: u32)
    ensures
        r == at_most(n as int, limit as int),
{
    if n < limit as usize {
        n as u32
    } else {
        limit
    }
}

fn evaluate_identity(
    before: &SemanticContractSnapshot,
    after: &SemanticContractSnapshot,
    shift: usize,
    edited_lines: Option<&BTreeSet<usize>>,
    assessment: &mut SemanticTransitionAssessment,
    penalty: u32,
    severity: &str,
)
    ensures
        final(assessment)@ == identity_step(
            old(assessment)@,
            before@,
            after@,
            shift,
            lines_view(edited_lines),
            penalty,
            severity@,
        ),
{
    let ghost was = assessment@;
    let (gone, mut culprits) = missing_symbols(before, after, shift);
    let added = difference(before.issues.identity_count, after.issues.identity_count);
    if added > 0 {
        extend_lines(&mut culprits, &after.issues.identity_lines);
    }
    assert(culprits@ =~= identity_culprits(before@, after@, shift));
    assessment.identity_severity = Severity::share(gone, added, before.identity.decl_ids.len());
    if gone > 0 || added > 0 {
        assessment.identity_integrity_regressed = true;
        assessment.failure_score_delta = raise(
            raise(assessment.failure_score_delta, penalty),
            capped(gone, 8) * 4,
        );
        extend_lines(&mut assessment.culprit_lines, &culprits);
        let mut message =
            "post-edit check failed: semantic symbol identity regressed (missing_stable_ids=".to_owned();
        message.append(decimal_of(gone).as_str());
        message.append(", added_identity_issues=");
        message.append(decimal_of(added).as_str());
        message.append(", severity=");
        message.append(severity);
        message.append(", lines=");
        message.append(line_hint(&culprits, 8).as_str());
        message.append(")");
        warn(&mut assessment.failure_messages, message);
    } else if let Some(lines) = edited_lines {
        if lines.len() > 0 && before.summary.semantic_signature
            != after.summary.semantic_signature {
            let mut message =
                "post-edit check warning: semantic identity signature changed under edited lines ".to_owned();
            message.append(line_hint(lines, 8).as_str());
            warn(&mut assessment.warning_messages, message);
        }
    }
    assert(assessment@ =~= identity_step(
        was,
        before@,
        after@,
        shift,
        lines_view(edited_lines),
        penalty,
        severity@,
    ));
}

/// The symbols that lost uses: how many, and their lines.
fn dropped_symbols(
    before: &SemanticContractSnapshot,
    after: &SemanticContractSnapshot,
    tolerance: usize,
) -> (r: (usize, BTreeSet<usize>))
    ensures
        r.0 == dropped(before@, after@, tolerance).len(),
        r.1@ == shown_lines_for(dropped(before@, after@, tolerance), before@.usr_decl_lines),
{
    let ghost all = dropped(before@, after@, tolerance);
    let counts = &before.identity.usr_ref_counts;
    let mut count: usize = 0;
    let mut found = BTreeSet::<usize>::new();
    let n = counts.len();
    let ghost ids = counts.names();
    let mut i: usize = 0;
    assert(all.intersect(ids.take(0).to_set()) =~= Set::empty());
    assert(found@ =~= shown_lines_for(
        all.intersect(ids.take(0).to_set()),
        before@.usr_decl_lines,
    ));
    while i < n
        invariant
            i <= n,
            n == ids.len(),
            counts == before.identity.usr_ref_counts,
            ids == counts.names(),
            ids.no_duplicates(),
            ids.to_set() == before@.usr_ref_counts.dom(),
            all == dropped(before@, after@, tolerance),
            count <= i,
            all.intersect(ids.take(i as int).to_set()).finite(),
            count == all.intersect(ids.take(i as int).to_set()).len(),
            found@ == shown_lines_for(
                all.intersect(ids.take(i as int).to_set()),
                before@.usr_decl_lines,
            ),
        decreases n - i,
    {
        let id = counts.name(i);
        let ghost head = all.intersect(ids.take(i as int).to_set());
        let ghost next = all.intersect(ids.take(i + 1).to_set());
        proof {
            names::lemma_take_insert(ids, i as int);
            assert(ids.to_set().contains(ids[i as int]));
            assert(next =~= if all.contains(id@) {
                head.insert(id@)
            } else {
                head
            });
            lemma_shown_lines_for(head, before@.usr_decl_lines, id@);
        }
        let uses = count_in(counts, id);
        let left = count_in(&after.identity.usr_ref_counts, id);
        if uses > left && uses - left > tolerance {
            if let Some(line) = before.identity.usr_decl_lines.get(id) {
                found.insert(not_zero(line));
            }
            count += 1;
        }
        i += 1;
    }
    proof {
        assert(ids.take(n as int) =~= ids);
        assert(all.intersect(ids.to_set()) =~= all);
    }
    (count, found)
}

/// The uses without a declaration: how many, and their lines.
fn orphaned_uses(before: &SemanticContractSnapshot, after: &SemanticContractSnapshot) -> (r: (
    usize,
    BTreeSet<usize>,
))
    ensures
        r.0 == orphan_count(before@, after@),
        r.1@ == shown_lines_for(orphans(before@, after@), after@.ref_first_line),
{
    let ghost all = orphans(before@, after@);
    let ghost worth = |id: Seq<char>| orphaned(before@, after@, id);
    let counts = &after.identity.ref_id_counts;
    let mut count: usize = 0;
    let mut found = BTreeSet::<usize>::new();
    let n = counts.len();
    let ghost ids = counts.names();
    let mut i: usize = 0;
    assert(all.intersect(ids.take(0).to_set()) =~= Set::empty());
    assert(ids.take(0).to_set() =~= Set::empty());
    assert(found@ =~= shown_lines_for(all.intersect(ids.take(0).to_set()), after@.ref_first_line));
    while i < n
        invariant
            i <= n,
            n == ids.len(),
            counts == after.identity.ref_id_counts,
            ids == counts.names(),
            ids.no_duplicates(),
            ids.to_set() == after@.ref_id_counts.dom(),
            all == orphans(before@, after@),
            worth == (|id: Seq<char>| orphaned(before@, after@, id)),
            count == at_most(
                names::total(ids.take(i as int).to_set(), worth) as int,
                usize::MAX as int,
            ),
            found@ == shown_lines_for(
                all.intersect(ids.take(i as int).to_set()),
                after@.ref_first_line,
            ),
        decreases n - i,
    {
        let id = counts.name(i);
        let ghost head = all.intersect(ids.take(i as int).to_set());
        let ghost next = all.intersect(ids.take(i + 1).to_set());
        proof {
            names::lemma_take_insert(ids, i as int);
            names::lemma_total_insert(ids.take(i as int).to_set(), worth, ids[i as int]);
            assert(ids.to_set().contains(ids[i as int]));
            assert(next =~= if all.contains(id@) {
                head.insert(id@)
            } else {
                head
            });
            lemma_shown_lines_for(head, after@.ref_first_line, id@);
        }
        if !after.identity.decl_ids.contains(id) {
            let uses = count_in(counts, id);
            let old_uses: usize = if before.identity.decl_ids.contains(id) {
                0
            } else {
                count_in(&before.identity.ref_id_counts, id)
            };
            if uses > old_uses {
                let more = uses - old_uses;
                assert(worth(id@) == more);
                count = if more > usize::MAX - count {
                    usize::MAX
                } else {
                    count + more
                };
                if let Some(line) = after.identity.ref_first_line.get(id) {
                    found.insert(not_zero(line));
                }
            } else {
                assert(worth(id@) == 0);
            }
        } else {
            assert(worth(id@) == 0);
        }
        i += 1;
    }
    proof {
        assert(ids.take(n as int) =~= ids);
        assert(all.intersect(ids.to_set()) =~= all);
    }
    (count, found)
}

fn evaluate_reference_integrity(
    before: &SemanticContractSnapshot,
    after: &SemanticContractSnapshot,
    tolerance: usize,
    assessment: &mut SemanticTransitionAssessment,
    penalties: TransitionPenalties,
)
    ensures
        final(assessment)@ == reference_step(
            old(assessment)@,
            before@,
            after@,
            tolerance,
            penalties,
        ),
{
    let ghost was = assessment@;
    let (lost, mut culprits) = dropped_symbols(before, after, tolerance);
    let (orphan_uses, orphan_lines) = orphaned_uses(before, after);
    let more = difference(before.issues.mismatch_count, after.issues.mismatch_count);
    if more > 0 {
        extend_lines(&mut culprits, &after.issues.mismatch_lines);
    }
    assert(culprits@ =~= drop_culprits(before@, after@, tolerance));
    let both: usize = if more > usize::MAX - lost {
        usize::MAX
    } else {
        lost + more
    };
    assessment.reference_severity = Severity::share(
        both,
        orphan_uses,
        before.identity.usr_ref_counts.len(),
    );
    assert(assessment@ =~= TransitionView {
        reference_severity: reference_share(before@, after@, tolerance),
        ..was
    });
    let ghost shared = assessment@;
    if lost > 0 {
        assessment.reference_integrity_regressed = true;
        assessment.failure_score_delta = raise(
            raise(assessment.failure_score_delta, penalties.reference),
            capped(lost, 16) * 3,
        );
        extend_lines(&mut assessment.culprit_lines, &culprits);
        let mut message =
            "post-edit check failed: semantic declaration-reference connectivity regressed (drops=".to_owned();
        message.append(decimal_of(lost).as_str());
        message.append(", tolerance=");
        message.append(decimal_of(tolerance).as_str());
        message.append(", lines=");
        message.append(line_hint(&culprits, 8).as_str());
        message.append(")");
        warn(&mut assessment.failure_messages, message);
    }
    let ghost first = drop_step(shared, before@, after@, tolerance, penalties.reference);
    assert(assessment@ =~= first);
    if more > 0 {
        assessment.reference_integrity_regressed = true;
        assessment.failure_score_delta = raise(
            raise(assessment.failure_score_delta, penalties.usage),
            capped(more, 16) * 2,
        );
        extend_lines(&mut assessment.culprit_lines, &after.issues.mismatch_lines);
        let mut message =
            "post-edit check failed: semantic usage-role consistency regressed (".to_owned();
        message.append(decimal_of(before.issues.mismatch_count).as_str());
        message.append(" -> ");
        message.append(decimal_of(after.issues.mismatch_count).as_str());
        message.append(", lines=");
        message.append(line_hint(&after.issues.mismatch_lines, 8).as_str());
        message.append(")");
        warn(&mut assessment.failure_messages, message);
    }
    let ghost second = usage_step(first, before@, after@, penalties.usage);
    assert(assessment@ =~= second);
    if orphan_uses > 0 {
        assessment.reference_integrity_regressed = true;
        assessment.failure_score_delta = raise(
            raise(assessment.failure_score_delta, penalties.orphan),
            capped(orphan_uses, 16) * 2,
        );
        extend_lines(&mut assessment.culprit_lines, &orphan_lines);
        let mut message =
            "post-edit check failed: orphan semantic references introduced (count=".to_owned();
        message.append(decimal_of(orphan_uses).as_str());
        message.append(", lines=");
        message.append(line_hint(&orphan_lines, 8).as_str());
        message.append(")");
        warn(&mut assessment.failure_messages, message);
    }
    assert(assessment@ =~= orphan_step(second, before@, after@, penalties.orphan));
}

/// Tests whether a scope is in the list.
fn range_listed(list: &[ScopeRange], range: ScopeRange, upto: usize) -> (r: bool)
    requires
        upto <= list@.len(),
    ensures
        r == list@.take(upto as int).contains(range),
{
    let mut i: usize = 0;
    let ghost head = list@.take(upto as int);
    while i < upto
        invariant
            i <= upto <= list@.len(),
            head == list@.take(upto as int),
            forall|k: int| 0 <= k < i ==> head[k] != range,
        decreases upto - i,
    {
        if list[i] == range {
            assert(head[i as int] == range);
            return true;
        }
        i += 1;
    }
    false
}

/// Tests whether a scope lies at an edited line.
pub fn range_near_edited_lines(
    range: (usize, usize),
    edited_lines: &BTreeSet<usize>,
    radius: usize,
) -> (r: bool)
    ensures
        r == lines::has_between(edited_lines@, range.0 - radius, range.1 + radius),
{
    let from: usize = if range.0 < radius {
        0
    } else {
        range.0 - radius
    };
    let to: usize = if range.1 > usize::MAX - radius {
        usize::MAX
    } else {
        range.1 + radius
    };
    let r = any_between(edited_lines, from, to);
    proof {
        if lines::has_between(edited_lines@, range.0 - radius, range.1 + radius) {
            let l = choose|l: usize| #[trigger]
                edited_lines@.contains(l) && range.0 - radius <= l <= range.1 + radius;
            assert(edited_lines@.contains(l) && from <= l <= to);
        }
    }
    r
}

fn is_tracked_node(node: ScopeNode) -> (r: bool)
    ensures
        r == is_tracked(node),
{
    match node {
        ScopeNode::Other(_) => false,
        _ => true,
    }
}

/// The scopes that are here and not there.
spec fn one_sided(here: Seq<ScopeRange>, there: Seq<ScopeRange>) -> Set<ScopeRange> {
    here.to_set().difference(there.to_set()).filter(|r: ScopeRange| is_tracked(r.node))
}

proof fn lemma_drift_lines(scopes: Set<ScopeRange>, r: ScopeRange)
    ensures
        drift_lines(scopes.insert(r)) == drift_lines(scopes).insert(
            snapshot::at_least_one(r.start),
        ),
{
    let more = scopes.insert(r);
    assert forall|line: usize| starts_on(more, line) == (starts_on(scopes, line) || line
        == snapshot::at_least_one(r.start)) by {
        if starts_on(more, line) {
            let x = choose|x: ScopeRange| #[trigger]
                more.contains(x) && snapshot::at_least_one(x.start) == line;
            if x != r {
                assert(scopes.contains(x));
            }
        }
        if starts_on(scopes, line) {
            let x = choose|x: ScopeRange| #[trigger]
                scopes.contains(x) && snapshot::at_least_one(x.start) == line;
            assert(more.contains(x));
        }
        assert(more.contains(r));
    }
    assert(drift_lines(more) =~= drift_lines(scopes).insert(snapshot::at_least_one(r.start)));
}

/// Counts the scopes that are here and not there: those at edited lines, and
/// the others.
fn side_drift(
    here: &[ScopeRange],
    there: &[ScopeRange],
    edited_lines: Option<&BTreeSet<usize>>,
) -> (r: (usize, usize, BTreeSet<usize>))
    ensures
        one_sided(here@, there@).finite(),
        r.0 == one_sided(here@, there@).filter(
            |x: ScopeRange| is_local(x, lines_view(edited_lines)),
        ).len(),
        r.1 == one_sided(here@, there@).filter(
            |x: ScopeRange| !is_local(x, lines_view(edited_lines)),
        ).len(),
        r.2@ == drift_lines(one_sided(here@, there@)),
{
    let ghost all = one_sided(here@, there@);
    let ghost near = |x: ScopeRange| is_local(x, lines_view(edited_lines));
    let ghost far = |x: ScopeRange| !is_local(x, lines_view(edited_lines));
    let mut local: usize = 0;
    let mut remote: usize = 0;
    let mut found = BTreeSet::<usize>::new();
    let mut i: usize = 0;
    proof {
        let none = all.intersect(here@.take(0).to_set());
        assert(none =~= Set::empty());
        assert(none.filter(near) =~= Set::empty());
        assert(none.filter(far) =~= Set::empty());
        assert(found@ =~= drift_lines(none));
    }
    while i < here.len()
        invariant
            i <= here@.len(),
            all == one_sided(here@, there@),
            near == (|x: ScopeRange| is_local(x, lines_view(edited_lines))),
            far == (|x: ScopeRange| !is_local(x, lines_view(edited_lines))),
            local + remote <= i,
            all.intersect(here@.take(i as int).to_set()).finite(),
            local == all.intersect(here@.take(i as int).to_set()).filter(near).len(),
            remote == all.intersect(here@.take(i as int).to_set()).filter(far).len(),
            found@ == drift_lines(all.intersect(here@.take(i as int).to_set())),
        decreases here@.len() - i,
    {
        let range = here[i];
        let ghost head = all.intersect(here@.take(i as int).to_set());
        let ghost next = all.intersect(here@.take(i + 1).to_set());
        proof {
            let a = here@.take(i as int);
            let b = here@.take(i + 1);
            assert(b =~= a.push(range));
            assert forall|x: ScopeRange| b.contains(x) == (a.contains(x) || x == range) by {
                if a.contains(x) {
                    let k = choose|k: int| 0 <= k < a.len() && a[k] == x;
                    assert(b[k] == x);
                }
                if b.contains(x) {
                    let k = choose|k: int| 0 <= k < b.len() && b[k] == x;
                    if k < i {
                        assert(a[k] == x);
                    }
                }
                assert(b[i as int] == range);
            }
            assert(here@.contains(here@[i as int]));
            assert(next =~= if all.contains(range) {
                head.insert(range)
            } else {
                head
            });
            assert(there@.take(there@.len() as int) =~= there@);
        }
        if is_tracked_node(range.node) && !range_listed(there, range, there.len())
            && !range_listed(here, range, i) {
            let at_edit = match edited_lines {
                Some(lines) => range_near_edited_lines(
                    (range.start, range.end),
                    lines,
                    DRIFT_RADIUS,
                ),
                None => false,
            };
            proof {
                assert(all.contains(range));
                assert(!head.contains(range));
                lemma_drift_lines(head, range);
                if at_edit {
                    assert(next.filter(near) =~= head.filter(near).insert(range));
                    assert(next.filter(far) =~= head.filter(far));
                } else {
                    assert(next.filter(far) =~= head.filter(far).insert(range));
                    assert(next.filter(near) =~= head.filter(near));
                }
            }
            if at_edit {
                local += 1;
            } else {
                remote += 1;
            }
            found.insert(not_zero(range.start));
        } else {
            assert(next =~= head);
        }
        i += 1;
    }
    proof {
        assert(here@.take(here@.len() as int) =~= here@);
        assert(all.intersect(here@.to_set()) =~= all);
    }
    (local, remote, found)
}

fn saturating_sum(a: usize, b: usize) -> (r: usize)
    ensures
        r == at_most(a + b, usize::MAX as int),
{
    if b > usize::MAX - a {
        usize::MAX
    } else {
        a + b
    }
}

/// The scopes that moved: those at edited lines, the others, and the lines of
/// all of them.
fn scope_range_drift(
    before: &SemanticContractSnapshot,
    after: &SemanticContractSnapshot,
    edited_lines: Option<&BTreeSet<usize>>,
) -> (r: (usize, usize, BTreeSet<usize>))
    ensures
        r.0 == local_drift(before@, after@, lines_view(edited_lines)),
        r.1 == remote_drift(before@, after@, lines_view(edited_lines)),
        r.2@ == drift_lines(drifted(before@, after@)),
{
    let old_scopes = before.scopes.ranges_by_kind.as_slice();
    let new_scopes = after.scopes.ranges_by_kind.as_slice();
    let (gone_local, gone_remote, gone_lines) = side_drift(old_scopes, new_scopes, edited_lines);
    let (new_local, new_remote, new_lines) = side_drift(new_scopes, old_scopes, edited_lines);
    let mut found = gone_lines;
    extend_lines(&mut found, &new_lines);
    proof {
        let near = |x: ScopeRange| is_local(x, lines_view(edited_lines));
        let far = |x: ScopeRange| !is_local(x, lines_view(edited_lines));
        let gone = one_sided(old_scopes@, new_scopes@);
        let new = one_sided(new_scopes@, old_scopes@);
        let both = drifted(before@, after@);
        assert(both =~= gone.union(new));
        assert(both.filter(near) =~= gone.filter(near).union(new.filter(near)));
        assert(both.filter(far) =~= gone.filter(far).union(new.filter(far)));
        assert(gone.filter(near).disjoint(new.filter(near)));
        assert(gone.filter(far).disjoint(new.filter(far)));
        vstd::set_lib::lemma_set_disjoint_lens(gone.filter(near), new.filter(near));
        vstd::set_lib::lemma_set_disjoint_lens(gone.filter(far), new.filter(far));
        assert forall|line: usize| starts_on(both, line) == (starts_on(gone, line) || starts_on(
            new,
            line,
        )) by {
            if starts_on(both, line) {
                let x = choose|x: ScopeRange| #[trigger]
                    both.contains(x) && snapshot::at_least_one(x.start) == line;
                assert(gone.contains(x) || new.contains(x));
            }
            if starts_on(gone, line) {
                let x = choose|x: ScopeRange| #[trigger]
                    gone.contains(x) && snapshot::at_least_one(x.start) == line;
                assert(both.contains(x));
            }
            if starts_on(new, line) {
                let x = choose|x: ScopeRange| #[trigger]
                    new.contains(x) && snapshot::at_least_one(x.start) == line;
                assert(both.contains(x));
            }
        }
        assert(found@ =~= drift_lines(both));
    }
    (saturating_sum(gone_local, new_local), saturating_sum(gone_remote, new_remote), found)
}

fn distance(a: usize, b: usize) -> (r: usize)
    ensures
        r == apart(a, b),
{
    if a < b {
        b - a
    } else {
        a - b
    }
}

fn evaluate_scope_integrity(
    before: &SemanticContractSnapshot,
    after: &SemanticContractSnapshot,
    tolerance: usize,
    edited_lines: Option<&BTreeSet<usize>>,
    assessment: &mut SemanticTransitionAssessment,
    penalty: u32,
)
    ensures
        final(assessment)@ == scope_step(
            old(assessment)@,
            before@,
            after@,
            tolerance,
            lines_view(edited_lines),
            penalty,
        ),
{
    let ghost was = assessment@;
    let a = before.scopes.counts;
    let b = after.scopes.counts;
    let counts: usize = saturating_sum(
        saturating_sum(
            distance(a.namespace, b.namespace),
            distance(a.type_scope, b.type_scope),
        ),
        saturating_sum(
            distance(a.function, b.function),
            distance(a.preprocessor, b.preprocessor),
        ),
    );
    let (local, remote, culprits) = scope_range_drift(before, after, edited_lines);
    let scopes: usize = saturating_sum(saturating_sum(a.namespace, a.type_scope), a.function);
    assessment.scope_severity = Severity::share(counts, remote, scopes);
    if counts > tolerance || remote > tolerance {
        assessment.scope_integrity_regressed = true;
        assessment.failure_score_delta = raise(assessment.failure_score_delta, penalty);
        extend_lines(&mut assessment.culprit_lines, &culprits);
        let mut message =
            "post-edit check failed: semantic scope structural drift detected (count_drift=".to_owned();
        message.append(decimal_of(counts).as_str());
        message.append(", local_range_drift=");
        message.append(decimal_of(local).as_str());
        message.append(", remote_range_drift=");
        message.append(decimal_of(remote).as_str());
        message.append(", tolerance=");
        message.append(decimal_of(tolerance).as_str());
        message.append(")");
        warn(&mut assessment.failure_messages, message);
    }
    assert(assessment@ =~= scope_step(
        was,
        before@,
        after@,
        tolerance,
        lines_view(edited_lines),
        penalty,
    ));
}

fn evaluate_macro_region_safety(
    before: &SemanticContractSnapshot,
    after: &SemanticContractSnapshot,
    edited_lines: Option<&BTreeSet<usize>>,
    assessment: &mut SemanticTransitionAssessment,
)
    ensures
        final(assessment)@ == macro_step(
            old(assessment)@,
            before@,
            after@,
            lines_view(edited_lines),
        ),
{
    let edited = match edited_lines {
        Some(lines) => lines,
        None => {
            return ;
        },
    };
    let list = lines_of(edited);
    let mut touched = BTreeSet::<usize>::new();
    let ghost all = macro_lines(before@, after@, edited@);
    let mut i: usize = 0;
    assert(touched@ =~= all.intersect(list@.take(0).to_set()));
    while i < list.len()
        invariant
            i <= list@.len(),
            list@.to_set() == edited@,
            all == macro_lines(before@, after@, edited@),
            touched@ == all.intersect(list@.take(i as int).to_set()),
        decreases list@.len() - i,
    {
        proof {
            lines::lemma_take_insert(list@, i as int);
            assert(list@.to_set().contains(list@[i as int]));
        }
        let line = list[i];
        if line_in_ranges(line, before.scopes.preprocessor_ranges.as_slice()) || line_in_ranges(
            line,
            after.scopes.preprocessor_ranges.as_slice(),
        ) {
            touched.insert(line);
        }
        assert(touched@ =~= all.intersect(list@.take(i + 1).to_set()));
        i += 1;
    }
    proof {
        assert(list@.take(list@.len() as int) =~= list@);
        assert(all.intersect(list@.to_set()) =~= all);
    }
    if touched.len() > 0 {
        let mut message =
            "post-edit check warning: macro-safety clause triggered for edited lines ".to_owned();
        message.append(line_hint(&touched, 8).as_str());
        warn(&mut assessment.warning_messages, message);
    }
}

/// Compares the semantics of a file before and after an edit. `severity` is
/// the text in which the share of the lost identities is shown.
pub fn evaluate(
    before: &SemanticContractSnapshot,
    after: &SemanticContractSnapshot,
    ref_drop_tol: usize,
    scope_drift_tol: usize,
    identity_shift_tol: usize,
    edited_lines: Option<&BTreeSet<usize>>,
    penalties: TransitionPenalties,
    severity: &str,
) -> (r: SemanticTransitionAssessment)
    ensures
        r@ == transition(
            before@,
            after@,
            ref_drop_tol,
            scope_drift_tol,
            identity_shift_tol,
            lines_view(edited_lines),
            penalties,
            severity@,
        ),
{
    let mut assessment = SemanticTransitionAssessment {
        failure_messages: Vec::new(),
        warning_messages: Vec::new(),
        failure_score_delta: 0,
        culprit_lines: BTreeSet::new(),
        identity_integrity_regressed: false,
        reference_integrity_regressed: false,
        scope_integrity_regressed: false,
        identity_severity: Severity { part: 0, whole: 1 },
        reference_severity: Severity { part: 0, whole: 1 },
        scope_severity: Severity { part: 0, whole: 1 },
    };
    assert(assessment@ =~= TransitionView::unchanged());
    evaluate_identity(
        before,
        after,
        identity_shift_tol,
        edited_lines,
        &mut assessment,
        penalties.identity,
        severity,
    );
    evaluate_reference_integrity(before, after, ref_drop_tol, &mut assessment, penalties);
    evaluate_scope_integrity(
        before,
        after,
        scope_drift_tol,
        edited_lines,
        &mut assessment,
        penalties.scope,
    );
    evaluate_macro_region_safety(before, after, edited_lines, &mut assessment);
    assessment
}

/// An edit that leaves the semantics as they were is no regression, whatever
/// is tolerated: it draws no failure, no score, no culprit and, where no line
/// was edited, no warning.
pub proof fn lemma_unchanged_is_accepted(
    s: SnapshotView,
    ref_drop_tol: usize,
    scope_drift_tol: usize,
    identity_shift_tol: usize,
    edited: Option<Set<usize>>,
    penalties: TransitionPenalties,
    severity: Seq<char>,
)
    requires
        s.is_countable(),
    ensures
        ({
            let t = transition(
                s,
                s,
                ref_drop_tol,
                scope_drift_tol,
                identity_shift_tol,
                edited,
                penalties,
                severity,
            );
            &&& t.failures.len() == 0
            &&& t.score == 0
            &&& !t.identity_regressed && !t.reference_regressed && !t.scope_regressed
            &&& t.culprits == Set::<usize>::empty()
            &&& edited is None ==> t.warnings.len() == 0
            &&& t.identity_severity.part == 0 && t.reference_severity.part == 0
                && t.scope_severity.part == 0
        }),
{
    assert(missing(s, s, identity_shift_tol) =~= Set::empty());
    assert(dropped(s, s, ref_drop_tol) =~= Set::empty());
    let worth = |id: Seq<char>| orphaned(s, s, id);
    lemma_worthless(s.ref_id_counts.dom(), worth);
    assert(drifted(s, s) =~= Set::empty());
    assert(drifted(s, s).filter(|r: ScopeRange| is_local(r, edited)) =~= Set::empty());
    assert(drifted(s, s).filter(|r: ScopeRange| !is_local(r, edited)) =~= Set::empty());
}

/// Wider tolerances add no regression.
pub proof fn lemma_wider_tolerances_add_no_regression(
    before: SnapshotView,
    after: SnapshotView,
    ref_drop: (usize, usize),
    scope_drift: (usize, usize),
    identity_shift: (usize, usize),
    edited: Option<Set<usize>>,
    penalties: TransitionPenalties,
    severity: (Seq<char>, Seq<char>),
)
    requires
        before.is_countable(),
        ref_drop.0 <= ref_drop.1,
        scope_drift.0 <= scope_drift.1,
        identity_shift.0 <= identity_shift.1,
    ensures
        ({
            let narrow = transition(
                before,
                after,
                ref_drop.0,
                scope_drift.0,
                identity_shift.0,
                edited,
                penalties,
                severity.0,
            );
            let wide = transition(
                before,
                after,
                ref_drop.1,
                scope_drift.1,
                identity_shift.1,
                edited,
                penalties,
                severity.1,
            );
            &&& wide.identity_regressed ==> narrow.identity_regressed
            &&& wide.reference_regressed ==> narrow.reference_regressed
            &&& wide.scope_regressed ==> narrow.scope_regressed
            &&& narrow.failures.len() == 0 ==> wide.failures.len() == 0
        }),
{
    lemma_shift_tolerance_is_monotone(before, after, identity_shift.0, identity_shift.1);
    lemma_drop_tolerance_is_monotone(before, after, ref_drop.0, ref_drop.1);
    let gone = missing(before, after, identity_shift.1);
    let lost = dropped(before, after, ref_drop.1);
    if missing(before, after, identity_shift.0).len() == 0 {
        assert(missing(before, after, identity_shift.0) =~= Set::empty());
        assert(gone =~= Set::empty());
    }
    if dropped(before, after, ref_drop.0).len() == 0 {
        assert(dropped(before, after, ref_drop.0) =~= Set::empty());
        assert(lost =~= Set::empty());
    }
}

proof fn lemma_worthless(ids: Set<Seq<char>>, worth: spec_fn(Seq<char>) -> nat)
    requires
        ids.finite(),
        forall|id: Seq<char>| #[trigger] worth(id) == 0,
    ensures
        names::total(ids, worth) == 0,
    decreases ids.len(),
{
    if ids.len() > 0 {
        lemma_worthless(ids.remove(ids.choose()), worth);
    }
}

/// A larger shift tolerance lets no further symbol go missing.
pub proof fn lemma_shift_tolerance_is_monotone(
    before: SnapshotView,
    after: SnapshotView,
    less: usize,
    more: usize,
)
    requires
        less <= more,
    ensures
        missing(before, after, more).subset_of(missing(before, after, less)),
{
    assert forall|id: Seq<char>| missing(before, after, more).contains(id) implies missing(
        before,
        after,
        less,
    ).contains(id) by {
        let gone = departed(before, id);
        if migrated(after, gone, less) {
            let (line, other) = choose|line: usize, other: Seq<char>| #[trigger]
                after.decl_ids_by_line.contains((line, other)) && gone.line - less <= line
                    <= gone.line + less && stands_in(after, line, other, gone);
            assert(after.decl_ids_by_line.contains((line, other)) && gone.line - more <= line
                <= gone.line + more && stands_in(after, line, other, gone));
            assert(migrated(after, gone, more));
        }
    }
}

/// A larger drop tolerance lets no further symbol count as dropped.
pub proof fn lemma_drop_tolerance_is_monotone(
    before: SnapshotView,
    after: SnapshotView,
    less: usize,
    more: usize,
)
    requires
        less <= more,
    ensures
        dropped(before, after, more).subset_of(dropped(before, after, less)),
{
}

/// Identities: a symbol that is declared no longer, with no declaration within
/// the tolerated shift of its old line, is a failure, and its old line is to
/// blame; and so is it where every declaration there is known to be of another
/// kind. More inconsistent identities are a failure too. While every symbol is
/// still declared and no more are inconsistent, there is none.
pub proof fn lemma_lost_symbols_regress(
    before: SnapshotView,
    after: SnapshotView,
    ref_drop_tol: usize,
    scope_drift_tol: usize,
    shift: usize,
    edited: Option<Set<usize>>,
    penalties: TransitionPenalties,
    severity: Seq<char>,
    id: Seq<char>,
)
    requires
        before.is_countable(),
    ensures
        ({
            let t = transition(
                before,
                after,
                ref_drop_tol,
                scope_drift_tol,
                shift,
                edited,
                penalties,
                severity,
            );
            let gone = before.decl_ids.contains(id) && !after.decl_ids.contains(id);
            let home = before.id_decl_lines[id];
            let placed = before.id_decl_lines.dom().contains(id) && home > 0;
            let alone = forall|line: usize, other: Seq<char>|
                #![trigger after.decl_ids_by_line.contains((line, other))]
                after.decl_ids_by_line.contains((line, other)) ==> line + shift < home || home
                    + shift < line;
            let other_kinds = before.kind_by_decl_id.dom().contains(id) && forall|
                line: usize,
                other: Seq<char>,
            |
                #![trigger after.decl_ids_by_line.contains((line, other))]
                after.decl_ids_by_line.contains((line, other)) ==> other != id
                    && after.kind_by_decl_id.dom().contains(other) && after.kind_by_decl_id[other]
                    != before.kind_by_decl_id[id];
            &&& gone && (!placed || alone || other_kinds) ==> t.identity_regressed
                && t.failures.len() > 0
            &&& gone && placed && (alone || other_kinds) ==> t.culprits.contains(home)
            &&& after.identity_count > before.identity_count ==> t.identity_regressed
                && t.failures.len() > 0 && after.identity_lines.subset_of(t.culprits)
            &&& before.decl_ids.subset_of(after.decl_ids) && after.identity_count
                <= before.identity_count ==> !t.identity_regressed
        }),
{
    let lost = missing(before, after, shift);
    if before.decl_ids.contains(id) && is_missing(before, after, shift, id) {
        assert(lost.contains(id));
        assert(lost.subset_of(before.decl_ids));
        vstd::set_lib::lemma_len_subset(lost, before.decl_ids);
        assert(lost.len() > 0);
        assert(has_line(lost, before.id_decl_lines, before.id_decl_lines[id])
            || !before.id_decl_lines.dom().contains(id));
    }
    if before.decl_ids.subset_of(after.decl_ids) {
        assert(lost =~= Set::empty());
    }
}

/// A symbol that moved no further than tolerated, under its own name, is not
/// missed.
pub proof fn lemma_moved_symbols_are_found(
    before: SnapshotView,
    after: SnapshotView,
    shift: usize,
    id: Seq<char>,
    line: usize,
)
    requires
        before.id_decl_lines.dom().contains(id),
        before.id_decl_lines[id] > 0,
        after.decl_ids_by_line.contains((line, id)),
        before.id_decl_lines[id] <= line + shift,
        line <= before.id_decl_lines[id] + shift,
    ensures
        !missing(before, after, shift).contains(id),
{
    assert(stands_in(after, line, id, departed(before, id)));
}

proof fn lemma_some_worth(ids: Set<Seq<char>>, worth: spec_fn(Seq<char>) -> nat, id: Seq<char>)
    requires
        ids.finite(),
        ids.contains(id),
    ensures
        names::total(ids, worth) >= worth(id),
{
    names::lemma_total_remove(ids, worth, id);
}

proof fn lemma_none_worth(ids: Set<Seq<char>>, worth: spec_fn(Seq<char>) -> nat)
    requires
        ids.finite(),
        forall|id: Seq<char>| ids.contains(id) ==> #[trigger] worth(id) == 0,
    ensures
        names::total(ids, worth) == 0,
    decreases ids.len(),
{
    if ids.len() > 0 {
        lemma_none_worth(ids.remove(ids.choose()), worth);
    }
}

/// References: a symbol that lost more uses than tolerated, a use that gained
/// no declaration or lost it, and more uses of the wrong kind are failures.
/// Where every use keeps its declaration, none is lost beyond the tolerance,
/// and no more are of the wrong kind, there is none.
pub proof fn lemma_lost_references_regress(
    before: SnapshotView,
    after: SnapshotView,
    ref_drop_tol: usize,
    scope_drift_tol: usize,
    shift: usize,
    edited: Option<Set<usize>>,
    penalties: TransitionPenalties,
    severity: Seq<char>,
    id: Seq<char>,
)
    requires
        before.is_countable(),
        after.is_countable(),
    ensures
        ({
            let t = transition(
                before,
                after,
                ref_drop_tol,
                scope_drift_tol,
                shift,
                edited,
                penalties,
                severity,
            );
            let was = before.usr_ref_counts;
            let now = after.usr_ref_counts;
            &&& was.dom().contains(id) && !now.dom().contains(id) && was[id] > ref_drop_tol
                ==> t.reference_regressed && t.failures.len() > 0
            &&& was.dom().contains(id) && now.dom().contains(id) && was[id] > now[id]
                + ref_drop_tol ==> t.reference_regressed && t.failures.len() > 0
            &&& was.dom().contains(id) && now.dom().contains(id) && was[id] > now[id]
                + ref_drop_tol && before.usr_decl_lines.dom().contains(id)
                && before.usr_decl_lines[id] > 0 ==> t.culprits.contains(before.usr_decl_lines[id])
            &&& after.mismatch_count > before.mismatch_count ==> t.reference_regressed
                && t.failures.len() > 0 && after.mismatch_lines.subset_of(t.culprits)
            &&& after.ref_id_counts.dom().contains(id) && after.ref_id_counts[id] > 0
                && before.decl_ids.contains(id) && !after.decl_ids.contains(id)
                ==> t.reference_regressed && t.failures.len() > 0
            &&& after.ref_id_counts.dom().contains(id) && !after.decl_ids.contains(id)
                && !before.ref_id_counts.dom().contains(id) && after.ref_id_counts[id] > 0
                ==> t.reference_regressed && t.failures.len() > 0
        }),
        ({
            let t = transition(
                before,
                after,
                ref_drop_tol,
                scope_drift_tol,
                shift,
                edited,
                penalties,
                severity,
            );
            (after.mismatch_count <= before.mismatch_count && (forall|x: Seq<char>| #[trigger]
                after.ref_id_counts.dom().contains(x) ==> after.decl_ids.contains(x)) && (forall|
                x: Seq<char>,
            | #[trigger]
                before.usr_ref_counts.dom().contains(x) ==> after.usr_ref_counts.dom().contains(x)
                    && before.usr_ref_counts[x] <= after.usr_ref_counts[x] + ref_drop_tol))
                ==> !t.reference_regressed
        }),
{
    let lost = dropped(before, after, ref_drop_tol);
    assert(lost.subset_of(before.usr_ref_counts.dom()));
    vstd::set_lib::lemma_len_subset(lost, before.usr_ref_counts.dom());
    let worth = |x: Seq<char>| orphaned(before, after, x);
    let uses = after.ref_id_counts.dom();
    if uses.contains(id) {
        lemma_some_worth(uses, worth, id);
        assert(worth(id) == orphaned(before, after, id));
    }
    if lost.contains(id) {
        assert(lost.len() > 0);
        assert(has_line(lost, before.usr_decl_lines, before.usr_decl_lines[id])
            || !before.usr_decl_lines.dom().contains(id));
    }
    if (forall|x: Seq<char>| #[trigger]
        after.ref_id_counts.dom().contains(x) ==> after.decl_ids.contains(x)) {
        assert forall|x: Seq<char>| uses.contains(x) implies #[trigger] worth(x) == 0 by {}
        lemma_none_worth(uses, worth);
    }
    if (forall|x: Seq<char>| #[trigger]
        before.usr_ref_counts.dom().contains(x) ==> after.usr_ref_counts.dom().contains(x)
            && before.usr_ref_counts[x] <= after.usr_ref_counts[x] + ref_drop_tol) {
        assert(lost =~= Set::empty());
    }
}

/// Scopes: numbers that moved further than tolerated are a failure, and so is
/// a scope that appeared or went away unedited where none may. Scopes that all
/// stayed where they were are none.
pub proof fn lemma_moved_scopes_regress(
    before: SnapshotView,
    after: SnapshotView,
    ref_drop_tol: usize,
    tolerance: usize,
    shift: usize,
    edited: Option<Set<usize>>,
    penalties: TransitionPenalties,
    severity: Seq<char>,
    range: ScopeRange,
)
    requires
        before.ranges_by_kind.finite(),
        after.ranges_by_kind.finite(),
    ensures
        ({
            let t = transition(
                before,
                after,
                ref_drop_tol,
                tolerance,
                shift,
                edited,
                penalties,
                severity,
            );
            let a = before.counts;
            let b = after.counts;
            let far = |x: usize, y: usize| x > y + tolerance || y > x + tolerance;
            let moved = before.ranges_by_kind.contains(range)
                != after.ranges_by_kind.contains(range) && !(range.node is Other);
            let untouched = edited is None || forall|line: usize| #[trigger]
                edited->Some_0.contains(line) ==> line + 1 < range.start || range.end + 1 < line;
            &&& far(a.namespace, b.namespace) || far(a.type_scope, b.type_scope) || far(
                a.function,
                b.function,
            ) || far(a.preprocessor, b.preprocessor) ==> t.scope_regressed && t.failures.len() > 0
            &&& moved && untouched && tolerance == 0 ==> t.scope_regressed && t.failures.len() > 0
            &&& moved && untouched && tolerance == 0 && range.start > 0 ==> t.culprits.contains(
                range.start,
            )
            &&& a == b && before.ranges_by_kind == after.ranges_by_kind ==> !t.scope_regressed
            &&& a == b && edited is Some && (forall|r: ScopeRange|
                #![trigger before.ranges_by_kind.contains(r)]
                #![trigger after.ranges_by_kind.contains(r)]
                before.ranges_by_kind.contains(r) == after.ranges_by_kind.contains(r) || (exists|
                    line: usize,
                | #[trigger]
                    edited->Some_0.contains(line) && r.start <= line <= r.end))
                ==> !t.scope_regressed
        }),
{
    let all = drifted(before, after);
    let wide = before.ranges_by_kind.union(after.ranges_by_kind);
    assert(all.subset_of(wide));
    vstd::set_lib::lemma_len_subset(all, wide);
    let remote = all.filter(|r: ScopeRange| !is_local(r, edited));
    assert(remote.subset_of(all));
    vstd::set_lib::lemma_len_subset(remote, all);
    if all.contains(range) {
        assert(starts_on(all, snapshot::at_least_one(range.start)));
    }
    if remote.contains(range) {
        assert(remote.len() > 0);
    }
    if before.ranges_by_kind == after.ranges_by_kind {
        assert(remote =~= Set::empty());
    }
    if edited is Some && (forall|r: ScopeRange|
        #![trigger before.ranges_by_kind.contains(r)]
        #![trigger after.ranges_by_kind.contains(r)]
        before.ranges_by_kind.contains(r) == after.ranges_by_kind.contains(r) || (exists|
            line: usize,
        | #[trigger]
            edited->Some_0.contains(line) && r.start <= line <= r.end)) {
        assert forall|r: ScopeRange| !remote.contains(r) by {
            if all.contains(r) {
                assert(before.ranges_by_kind.contains(r) != after.ranges_by_kind.contains(r));
                let line = choose|line: usize| #[trigger]
                    edited->Some_0.contains(line) && r.start <= line <= r.end;
                assert(lines::has_between(
                    edited->Some_0,
                    r.start - DRIFT_RADIUS,
                    r.end + DRIFT_RADIUS,
                ));
            }
        }
        assert(remote =~= Set::empty());
    }
}

/// A failure costs at least what is set for it, and nothing is charged
/// without one.
pub proof fn lemma_only_failures_cost(
    before: SnapshotView,
    after: SnapshotView,
    ref_drop_tol: usize,
    scope_drift_tol: usize,
    shift: usize,
    edited: Option<Set<usize>>,
    penalties: TransitionPenalties,
    severity: Seq<char>,
)
    ensures
        ({
            let t = transition(
                before,
                after,
                ref_drop_tol,
                scope_drift_tol,
                shift,
                edited,
                penalties,
                severity,
            );
            &&& t.identity_regressed ==> t.score >= penalties.identity
            &&& t.scope_regressed ==> t.score >= penalties.scope
            &&& t.reference_regressed ==> t.score >= penalties.reference || t.score
                >= penalties.usage || t.score >= penalties.orphan
            &&& after.mismatch_count > before.mismatch_count ==> t.score >= penalties.usage
            &&& !t.identity_regressed && !t.reference_regressed && !t.scope_regressed ==> t.score
                == 0 && t.failures.len() == 0 && t.culprits == Set::<usize>::empty()
            &&& (t.identity_regressed || t.reference_regressed || t.scope_regressed)
                == (t.failures.len() > 0)
        }),
{
}

/// Edits of lines in a preprocessor region, of the file before or after, draw a
/// warning and no failure.
pub proof fn lemma_macro_edits_warn(
    before: SnapshotView,
    after: SnapshotView,
    ref_drop_tol: usize,
    scope_drift_tol: usize,
    shift: usize,
    edited: Set<usize>,
    penalties: TransitionPenalties,
    severity: Seq<char>,
    line: usize,
    k: int,
)
    requires
        edited.finite(),
        edited.contains(line),
        (0 <= k < before.preprocessor_ranges.len() && before.preprocessor_ranges[k].0 <= line
            <= before.preprocessor_ranges[k].1) || (0 <= k < after.preprocessor_ranges.len()
            && after.preprocessor_ranges[k].0 <= line <= after.preprocessor_ranges[k].1),
    ensures
        transition(
            before,
            after,
            ref_drop_tol,
            scope_drift_tol,
            shift,
            Some(edited),
            penalties,
            severity,
        ).warnings.len() > 0,
{
    let touched = macro_lines(before, after, edited);
    assert(touched.contains(line));
    vstd::set_lib::lemma_len_subset(touched, edited);
    assert(touched.len() > 0);
}

/// A symbol that went away has a namesake: one of its kind near its old line
/// stands in for it where it is used about as often. Two others there that are
/// both used much less do not.
pub proof fn lemma_renamed_symbols(
    before: SnapshotView,
    after: SnapshotView,
    shift: usize,
    id: Seq<char>,
    line: usize,
    a: Seq<char>,
    b: Seq<char>,
)
    requires
        before.decl_ids.contains(id),
        !after.decl_ids.contains(id),
        before.id_decl_lines.dom().contains(id),
        before.id_decl_lines[id] > 0,
        before.kind_by_decl_id.dom().contains(id),
        before.ref_id_counts.dom().contains(id),
        before.id_decl_lines[id] <= line + shift,
        line <= before.id_decl_lines[id] + shift,
        after.decl_ids_by_line.contains((line, a)),
        after.kind_by_decl_id.dom().contains(a),
        after.kind_by_decl_id[a] == before.kind_by_decl_id[id],
    ensures
        after.ref_id_counts.dom().contains(a) && after.ref_id_counts[a] + 1
            >= before.ref_id_counts[id] ==> !missing(before, after, shift).contains(id),
        (forall|l: usize, x: Seq<char>| #[trigger]
            after.decl_ids_by_line.contains((l, x)) && l == line ==> x == a) ==> !missing(
            before,
            after,
            shift,
        ).contains(id),
        a != b && a != id && b != id && after.decl_ids_by_line.contains((line, b))
            && after.kind_by_decl_id.dom().contains(b) && after.kind_by_decl_id[b]
            == before.kind_by_decl_id[id] && (forall|l: usize, x: Seq<char>| #[trigger]
            after.decl_ids_by_line.contains((l, x)) ==> l == line && (x == a || x == b))
            && after.ref_id_counts.dom().contains(a) && after.ref_id_counts.dom().contains(b)
            && after.ref_id_counts[a] + 1 < before.ref_id_counts[id] && after.ref_id_counts[b] + 1
            < before.ref_id_counts[id] ==> missing(before, after, shift).contains(id),
{
    let gone = departed(before, id);
    let here = compatible_on(after, line, gone.kind);
    assert(compatible(after, a, gone.kind));
    assert(here.contains(a));
    if forall|l: usize, x: Seq<char>| #[trigger]
        after.decl_ids_by_line.contains((l, x)) && l == line ==> x == a {
        assert(here =~= set![a]);
        assert(here.len() == 1);
        assert(stands_in(after, line, a, gone));
    }
    if after.ref_id_counts.dom().contains(a) && after.ref_id_counts[a] + 1
        >= before.ref_id_counts[id] {
        assert(stands_in(after, line, a, gone));
    }
    if a != b && a != id && b != id && after.decl_ids_by_line.contains((line, b))
        && after.kind_by_decl_id.dom().contains(b) && after.kind_by_decl_id[b]
        == before.kind_by_decl_id[id] && (forall|l: usize, x: Seq<char>| #[trigger]
        after.decl_ids_by_line.contains((l, x)) ==> l == line && (x == a || x == b)) {
        assert(here =~= set![a].insert(b));
        assert(here.len() == 2);
    }
}

/// A failure costs more the more of it there is: each missing symbol four, up to
/// eight of them, beside what is set.
pub proof fn lemma_cost_of_missing_symbols(
    before: SnapshotView,
    after: SnapshotView,
    shift: usize,
    edited: Option<Set<usize>>,
    penalty: u32,
    severity: Seq<char>,
)
    requires
        penalty <= 1_000_000,
    ensures
        ({
            let t = identity_step(
                TransitionView::unchanged(),
                before,
                after,
                shift,
                edited,
                penalty,
                severity,
            );
            let n = missing(before, after, shift).len();
            &&& 0 < n <= 8 ==> t.score == penalty + 4 * n
            &&& n > 8 ==> t.score == penalty + 32
        }),
{
}

} // verus!
