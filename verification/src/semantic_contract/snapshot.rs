//! The part of a file's semantics that is compared before and after an edit.
use std::collections::BTreeSet;
use vstd::prelude::*;

use crate::file_context::{
    ScopeNode, SemanticDeclaration, SemanticFileContext, SemanticIdProvenance, SemanticReference,
    SemanticScope, SemanticScopeKind, SemanticSummary,
};
use crate::names;
use crate::names::{NameMap, NameSet};
use crate::ranges;
use crate::ranges::add_range;
use crate::text;
use crate::text::{chars_of, starts_with, trim_bounds};

verus! {

broadcast use {
    vstd::std_specs::btree::group_btree_axioms,
    vstd::laws_cmp::group_laws_cmp,
};

/// How many scopes there are of each class.
#[derive(Clone, Copy, Debug, PartialEq, Eq, Structural)]
pub struct SemanticScopeCounts {
    pub namespace: usize,
    pub type_scope: usize,
    pub function: usize,
    pub preprocessor: usize,
}

impl SemanticScopeCounts {
    pub open spec fn zero() -> SemanticScopeCounts {
        SemanticScopeCounts { namespace: 0, type_scope: 0, function: 0, preprocessor: 0 }
    }

    /// All scopes that are counted.
    pub open spec fn sum(self) -> int {
        self.namespace + self.type_scope + self.function + self.preprocessor
    }
}

/// A symbol that is declared on a line.
#[derive(Debug)]
pub struct LineName {
    pub line: usize,
    pub name: String,
}

pub open spec fn line_names(places: Seq<LineName>) -> Seq<(usize, Seq<char>)> {
    places.map_values(|p: LineName| (p.line, p.name@))
}

/// The lines of a scope, with the node that opens it.
#[derive(Clone, Copy, Debug, PartialEq, Eq, Structural)]
pub struct ScopeRange {
    pub node: ScopeNode,
    pub start: usize,
    pub end: usize,
}

/// The symbols of a file.
#[derive(Debug)]
pub struct SymbolIdentity {
    pub usr_ref_counts: NameMap<usize>,
    pub usr_decl_lines: NameMap<usize>,
    pub decl_ids_by_line: Vec<LineName>,
    pub kind_by_decl_id: NameMap<i32>,
    pub decl_ids: NameSet,
    pub id_decl_lines: NameMap<usize>,
    pub ref_id_counts: NameMap<usize>,
    pub ref_first_line: NameMap<usize>,
}

/// The scopes of a file.
#[derive(Debug)]
pub struct ScopeStructure {
    pub counts: SemanticScopeCounts,
    pub ranges_by_kind: Vec<ScopeRange>,
    pub preprocessor_ranges: Vec<(usize, usize)>,
}

/// What is wrong with the symbols of a file.
#[derive(Debug)]
pub struct SemanticIssues {
    pub identity_count: usize,
    pub identity_lines: BTreeSet<usize>,
    pub mismatch_count: usize,
    pub mismatch_lines: BTreeSet<usize>,
}

/// A snapshot of a file's semantics.
#[derive(Debug)]
pub struct SemanticContractSnapshot {
    pub summary: SemanticSummary,
    pub identity: SymbolIdentity,
    pub scopes: ScopeStructure,
    pub issues: SemanticIssues,
}

/// The value of a snapshot.
#[verifier::ext_equal]
pub ghost struct SnapshotView {
    pub summary: SemanticSummary,
    pub usr_ref_counts: Map<Seq<char>, usize>,
    pub usr_decl_lines: Map<Seq<char>, usize>,
    pub decl_ids_by_line: Set<(usize, Seq<char>)>,
    pub kind_by_decl_id: Map<Seq<char>, i32>,
    pub decl_ids: Set<Seq<char>>,
    pub id_decl_lines: Map<Seq<char>, usize>,
    pub ref_id_counts: Map<Seq<char>, usize>,
    pub ref_first_line: Map<Seq<char>, usize>,
    pub counts: SemanticScopeCounts,
    pub ranges_by_kind: Set<ScopeRange>,
    pub preprocessor_ranges: Seq<(usize, usize)>,
    pub identity_count: usize,
    pub identity_lines: Set<usize>,
    pub mismatch_count: usize,
    pub mismatch_lines: Set<usize>,
}

impl View for SemanticContractSnapshot {
    type V = SnapshotView;

    open spec fn view(&self) -> SnapshotView {
        SnapshotView {
            summary: self.summary,
            usr_ref_counts: self.identity.usr_ref_counts@,
            usr_decl_lines: self.identity.usr_decl_lines@,
            decl_ids_by_line: line_names(self.identity.decl_ids_by_line@).to_set(),
            kind_by_decl_id: self.identity.kind_by_decl_id@,
            decl_ids: self.identity.decl_ids@,
            id_decl_lines: self.identity.id_decl_lines@,
            ref_id_counts: self.identity.ref_id_counts@,
            ref_first_line: self.identity.ref_first_line@,
            counts: self.scopes.counts,
            ranges_by_kind: self.scopes.ranges_by_kind@.to_set(),
            preprocessor_ranges: self.scopes.preprocessor_ranges@,
            identity_count: self.issues.identity_count,
            identity_lines: self.issues.identity_lines@,
            mismatch_count: self.issues.mismatch_count,
            mismatch_lines: self.issues.mismatch_lines@,
        }
    }
}

impl SnapshotView {
    /// Whether the symbols can be counted.
    pub open spec fn is_countable(self) -> bool {
        &&& self.usr_ref_counts.dom().finite()
        &&& self.decl_ids.finite()
        &&& self.ref_id_counts.dom().finite()
    }
}

/// The symbols of every snapshot can be counted.
pub proof fn lemma_snapshot_is_countable(s: SemanticContractSnapshot)
    ensures
        s@.is_countable(),
{
    names::lemma_map_is_finite(s.identity.usr_ref_counts);
    names::lemma_set_is_finite(s.identity.decl_ids);
    names::lemma_map_is_finite(s.identity.ref_id_counts);
}

/// One more, up to the largest number there is.
pub open spec fn bump(n: usize) -> usize {
    if n < usize::MAX {
        (n + 1) as usize
    } else {
        n
    }
}

/// The value of a key, or zero.
pub open spec fn count_of(counts: Map<Seq<char>, usize>, id: Seq<char>) -> usize {
    if counts.dom().contains(id) {
        counts[id]
    } else {
        0
    }
}

/// Lines count from one.
pub open spec fn at_least_one(line: usize) -> usize {
    if line == 0 {
        1
    } else {
        line
    }
}

/// The cursor kind of a function template.
pub open spec fn template_kind() -> i32 {
    30
}

/// Declarations of function templates are left out: they share the place of
/// the function that they declare.
pub open spec fn counts_as_declared(d: SemanticDeclaration) -> bool {
    d.kind != template_kind()
}

/// The declarations that are taken in.
pub open spec fn declared(ds: Seq<SemanticDeclaration>) -> Seq<SemanticDeclaration>
    decreases ds.len(),
{
    if ds.len() == 0 {
        Seq::empty()
    } else if counts_as_declared(ds.last()) {
        declared(ds.drop_last()).push(ds.last())
    } else {
        declared(ds.drop_last())
    }
}

/// The symbols with the line of their last declaration.
pub open spec fn decl_lines(ds: Seq<SemanticDeclaration>) -> Map<Seq<char>, usize>
    decreases ds.len(),
{
    if ds.len() == 0 {
        Map::empty()
    } else {
        decl_lines(ds.drop_last()).insert(ds.last().stable_id@, at_least_one(ds.last().line))
    }
}

/// The symbols with the kind of their last declaration.
pub open spec fn decl_kinds(ds: Seq<SemanticDeclaration>) -> Map<Seq<char>, i32>
    decreases ds.len(),
{
    if ds.len() == 0 {
        Map::empty()
    } else {
        decl_kinds(ds.drop_last()).insert(ds.last().stable_id@, ds.last().kind)
    }
}

/// Where each symbol is declared.
pub open spec fn decl_places(ds: Seq<SemanticDeclaration>) -> Set<(usize, Seq<char>)>
    decreases ds.len(),
{
    if ds.len() == 0 {
        Set::empty()
    } else {
        decl_places(ds.drop_last()).insert(
            (at_least_one(ds.last().line), ds.last().stable_id@),
        )
    }
}

/// Whether the identity of a symbol has the form of a resolution string.
pub open spec fn looks_usr(id: Seq<char>) -> bool {
    text::begins_with(id, "usr:"@)
}

/// Whether a resolution string stands behind a declaration.
pub open spec fn usr_backed(d: SemanticDeclaration) -> bool {
    d.provenance is Usr || looks_usr(d.stable_id@) || (d.usr is Some && text::trimmed(
        d.usr->Some_0@,
    ).len() > 0)
}

/// The declarations that a resolution string stands behind.
pub open spec fn backed(ds: Seq<SemanticDeclaration>) -> Seq<SemanticDeclaration>
    decreases ds.len(),
{
    if ds.len() == 0 {
        Seq::empty()
    } else if usr_backed(ds.last()) {
        backed(ds.drop_last()).push(ds.last())
    } else {
        backed(ds.drop_last())
    }
}

/// Whether the identity says otherwise than its provenance.
pub open spec fn identity_issue(d: SemanticDeclaration) -> bool {
    (d.provenance is Usr) != looks_usr(d.stable_id@)
}

/// The lines of the declarations whose identity is inconsistent.
pub open spec fn identity_lines(ds: Seq<SemanticDeclaration>) -> Set<usize>
    decreases ds.len(),
{
    if ds.len() == 0 {
        Set::empty()
    } else if identity_issue(ds.last()) {
        identity_lines(ds.drop_last()).insert(at_least_one(ds.last().line))
    } else {
        identity_lines(ds.drop_last())
    }
}

/// How many declarations have an inconsistent identity.
pub open spec fn identity_issues(ds: Seq<SemanticDeclaration>) -> usize
    decreases ds.len(),
{
    if ds.len() == 0 {
        0
    } else if identity_issue(ds.last()) {
        bump(identity_issues(ds.drop_last()))
    } else {
        identity_issues(ds.drop_last())
    }
}

/// How often each symbol is used.
pub open spec fn ref_counts(rs: Seq<SemanticReference>) -> Map<Seq<char>, usize>
    decreases rs.len(),
{
    if rs.len() == 0 {
        Map::empty()
    } else {
        let counts = ref_counts(rs.drop_last());
        let id = rs.last().stable_id@;
        counts.insert(id, bump(count_of(counts, id)))
    }
}

/// The line of the first use of each symbol.
pub open spec fn first_lines(rs: Seq<SemanticReference>) -> Map<Seq<char>, usize>
    decreases rs.len(),
{
    if rs.len() == 0 {
        Map::empty()
    } else {
        let first = first_lines(rs.drop_last());
        let id = rs.last().stable_id@;
        if first.dom().contains(id) {
            first
        } else {
            first.insert(id, at_least_one(rs.last().line))
        }
    }
}

/// How often each of the given symbols is used.
pub open spec fn counted_for(ids: Set<Seq<char>>, rs: Seq<SemanticReference>) -> Map<
    Seq<char>,
    usize,
> {
    Map::new(|id: Seq<char>| ids.contains(id), |id: Seq<char>| count_of(ref_counts(rs), id))
}

/// Whether a use takes its symbol for something else than it was declared as.
pub open spec fn mismatch(kinds: Map<Seq<char>, i32>, r: SemanticReference) -> bool {
    kinds.dom().contains(r.stable_id@) && kinds[r.stable_id@] != r.decl_kind
}

/// How many uses do so.
pub open spec fn mismatches(kinds: Map<Seq<char>, i32>, rs: Seq<SemanticReference>) -> usize
    decreases rs.len(),
{
    if rs.len() == 0 {
        0
    } else if mismatch(kinds, rs.last()) {
        bump(mismatches(kinds, rs.drop_last()))
    } else {
        mismatches(kinds, rs.drop_last())
    }
}

/// The lines of those uses.
pub open spec fn mismatch_lines(kinds: Map<Seq<char>, i32>, rs: Seq<SemanticReference>) -> Set<
    usize,
>
    decreases rs.len(),
{
    if rs.len() == 0 {
        Set::empty()
    } else if mismatch(kinds, rs.last()) {
        mismatch_lines(kinds, rs.drop_last()).insert(at_least_one(rs.last().line))
    } else {
        mismatch_lines(kinds, rs.drop_last())
    }
}

/// The lines of a scope: they count from one, and the last is not before the
/// first.
pub open spec fn scope_range(s: SemanticScope) -> ScopeRange {
    let start = at_least_one(s.start_line);
    ScopeRange {
        node: s.node,
        start,
        end: if s.end_line < start {
            start
        } else {
            s.end_line
        },
    }
}

/// How many scopes there are of each class.
pub open spec fn scope_counts(ss: Seq<SemanticScope>) -> SemanticScopeCounts
    decreases ss.len(),
{
    if ss.len() == 0 {
        SemanticScopeCounts::zero()
    } else {
        let counts = scope_counts(ss.drop_last());
        match ss.last().kind {
            SemanticScopeKind::Namespace => SemanticScopeCounts {
                namespace: bump(counts.namespace),
                ..counts
            },
            SemanticScopeKind::Type => SemanticScopeCounts {
                type_scope: bump(counts.type_scope),
                ..counts
            },
            SemanticScopeKind::Function => SemanticScopeCounts {
                function: bump(counts.function),
                ..counts
            },
            SemanticScopeKind::Preprocessor => SemanticScopeCounts {
                preprocessor: bump(counts.preprocessor),
                ..counts
            },
            _ => counts,
        }
    }
}

/// The ranges of all scopes.
pub open spec fn scope_ranges(ss: Seq<SemanticScope>) -> Seq<ScopeRange> {
    ss.map_values(|s: SemanticScope| scope_range(s))
}

/// The ranges of the preprocessor's scopes, in order.
pub open spec fn preprocessor_ranges(ss: Seq<SemanticScope>) -> Seq<(usize, usize)>
    decreases ss.len(),
{
    if ss.len() == 0 {
        Seq::empty()
    } else if ss.last().kind is Preprocessor {
        let range = scope_range(ss.last());
        ranges::insert(preprocessor_ranges(ss.drop_last()), (range.start, range.end))
    } else {
        preprocessor_ranges(ss.drop_last())
    }
}

/// The snapshot of a file.
pub open spec fn snapshot_of(context: SemanticFileContext) -> SnapshotView {
    let ds = declared(context.declarations@);
    let rs = context.references@;
    let ss = context.scopes@;
    SnapshotView {
        summary: context.summary,
        usr_ref_counts: counted_for(decl_lines(backed(ds)).dom(), rs),
        usr_decl_lines: decl_lines(backed(ds)),
        decl_ids_by_line: decl_places(ds),
        kind_by_decl_id: decl_kinds(ds),
        decl_ids: decl_lines(ds).dom(),
        id_decl_lines: decl_lines(ds),
        ref_id_counts: ref_counts(rs),
        ref_first_line: first_lines(rs),
        counts: scope_counts(ss),
        ranges_by_kind: scope_ranges(ss).to_set(),
        preprocessor_ranges: preprocessor_ranges(ss),
        identity_count: identity_issues(ds),
        identity_lines: identity_lines(ds),
        mismatch_count: mismatches(decl_kinds(ds), rs),
        mismatch_lines: mismatch_lines(decl_kinds(ds), rs),
    }
}

/// The number that `clang_sys::CXCursor_FunctionTemplate` stands for. The crate
/// defines the constant as 30.
#[verifier::external_body]
fn function_template_kind() -> (r: i32)
    ensures
        r == template_kind(),
{
    clang_sys::CXCursor_FunctionTemplate
}

fn not_zero(line: usize) -> (r: usize)
    ensures
        r == at_least_one(line),
{
    if line == 0 {
        1
    } else {
        line
    }
}

/// Tests whether the identity of a symbol has the form of a resolution string.
pub fn looks_like_usr(id: &str) -> (r: bool)
    ensures
        r == looks_usr(id@),
{
    let chars = chars_of(id);
    let prefix = chars_of("usr:");
    starts_with(chars.as_slice(), prefix.as_slice())
}

fn is_usr_backed(d: &SemanticDeclaration, looks: bool) -> (r: bool)
    requires
        looks == looks_usr(d.stable_id@),
    ensures
        r == usr_backed(*d),
{
    if d.provenance == SemanticIdProvenance::Usr || looks {
        return true;
    }
    match &d.usr {
        None => false,
        Some(usr) => {
            let chars = chars_of(usr.as_str());
            let (from, to) = trim_bounds(chars.as_slice());
            from < to
        },
    }
}

fn saturating_next(n: usize) -> (r: usize)
    ensures
        r == bump(n),
{
    if n < usize::MAX {
        n + 1
    } else {
        n
    }
}

/// What the declarations alone give.
struct DeclarationTables {
    usr_decl_lines: NameMap<usize>,
    places: Vec<LineName>,
    kinds: NameMap<i32>,
    ids: NameSet,
    lines: NameMap<usize>,
    issue_count: usize,
    issue_lines: BTreeSet<usize>,
}

spec fn tables_fit(t: DeclarationTables, ds: Seq<SemanticDeclaration>) -> bool {
    &&& t.usr_decl_lines@ == decl_lines(backed(ds))
    &&& line_names(t.places@).to_set() == decl_places(ds)
    &&& t.kinds@ == decl_kinds(ds)
    &&& t.ids@ == decl_lines(ds).dom()
    &&& t.lines@ == decl_lines(ds)
    &&& t.issue_count == identity_issues(ds)
    &&& t.issue_lines@ == identity_lines(ds)
}

fn collect_declarations(ds: &[SemanticDeclaration]) -> (t: DeclarationTables)
    ensures
        tables_fit(t, declared(ds@)),
{
    let template = function_template_kind();
    let mut usr_decl_lines = NameMap::<usize>::new();
    let mut places: Vec<LineName> = Vec::new();
    let mut kinds = NameMap::<i32>::new();
    let mut ids = NameSet::new();
    let mut lines = NameMap::<usize>::new();
    let mut issue_count: usize = 0;
    let mut issue_lines = BTreeSet::<usize>::new();
    let mut i: usize = 0;
    assert(line_names(places@).to_set() =~= Set::empty());
    assert(ids@ =~= decl_lines(declared(ds@.take(0))).dom());
    assert(issue_lines@ =~= Set::empty());
    while i < ds.len()
        invariant
            i <= ds@.len(),
            template == template_kind(),
            usr_decl_lines@ == decl_lines(backed(declared(ds@.take(i as int)))),
            line_names(places@).to_set() == decl_places(declared(ds@.take(i as int))),
            kinds@ == decl_kinds(declared(ds@.take(i as int))),
            ids@ == decl_lines(declared(ds@.take(i as int))).dom(),
            lines@ == decl_lines(declared(ds@.take(i as int))),
            issue_count == identity_issues(declared(ds@.take(i as int))),
            issue_lines@ == identity_lines(declared(ds@.take(i as int))),
        decreases ds@.len() - i,
    {
        let d = &ds[i];
        let ghost now = declared(ds@.take(i as int));
        let ghost next = declared(ds@.take(i + 1));
        assert(ds@.take(i + 1).drop_last() =~= ds@.take(i as int));
        assert(ds@.take(i + 1).last() == d);
        if d.kind != template {
            let line = not_zero(d.line);
            let id = d.stable_id.as_str();
            let ghost was = places@;
            proof {
                assert(next == now.push(*d));
                assert(next.drop_last() =~= now);
                assert(next.last() == d);
            }
            ids = ids.insert(id);
            places.push(LineName { line, name: id.to_owned() });
            kinds = kinds.put(id, d.kind);
            lines = lines.put(id, line);
            proof {
                lemma_push_to_set(line_names(was), (line, id@));
                assert(line_names(places@) =~= line_names(was).push((line, id@)));
                assert(ids@ =~= decl_lines(next).dom());
            }
            let looks = looks_like_usr(id);
            if is_usr_backed(d, looks) {
                proof {
                    assert(backed(next) == backed(now).push(*d));
                    assert(backed(next).drop_last() =~= backed(now));
                    assert(backed(next).last() == d);
                }
                usr_decl_lines = usr_decl_lines.put(id, line);
            }
            if (d.provenance == SemanticIdProvenance::Usr) != looks {
                issue_count = saturating_next(issue_count);
                issue_lines.insert(line);
            }
        }
        i += 1;
    }
    assert(ds@.take(ds@.len() as int) =~= ds@);
    DeclarationTables { usr_decl_lines, places, kinds, ids, lines, issue_count, issue_lines }
}

proof fn lemma_push_to_set<A>(list: Seq<A>, x: A)
    ensures
        list.push(x).to_set() == list.to_set().insert(x),
{
    let more = list.push(x);
    assert forall|y: A| more.to_set().contains(y) <==> list.to_set().insert(x).contains(y) by {
        if more.contains(y) {
            let k = choose|k: int| 0 <= k < more.len() && more[k] == y;
            if k < list.len() {
                assert(list[k] == y);
            }
        }
        if list.contains(y) {
            let k = choose|k: int| 0 <= k < list.len() && list[k] == y;
            assert(more[k] == y);
        }
        assert(more[list.len() as int] == x);
    }
    assert(more.to_set() =~= list.to_set().insert(x));
}

/// What the uses give, for declared kinds.
struct ReferenceTables {
    counts: NameMap<usize>,
    first: NameMap<usize>,
    mismatch_count: usize,
    mismatch_lines: BTreeSet<usize>,
}

fn collect_references(rs: &[SemanticReference], kinds: &NameMap<i32>) -> (t: ReferenceTables)
    ensures
        t.counts@ == ref_counts(rs@),
        t.first@ == first_lines(rs@),
        t.mismatch_count == mismatches(kinds@, rs@),
        t.mismatch_lines@ == mismatch_lines(kinds@, rs@),
{
    let mut counts = NameMap::<usize>::new();
    let mut first = NameMap::<usize>::new();
    let mut mismatch_count: usize = 0;
    let mut lines = BTreeSet::<usize>::new();
    let mut i: usize = 0;
    assert(lines@ =~= Set::empty());
    while i < rs.len()
        invariant
            i <= rs@.len(),
            counts@ == ref_counts(rs@.take(i as int)),
            first@ == first_lines(rs@.take(i as int)),
            mismatch_count == mismatches(kinds@, rs@.take(i as int)),
            lines@ == mismatch_lines(kinds@, rs@.take(i as int)),
        decreases rs@.len() - i,
    {
        let r = &rs[i];
        assert(rs@.take(i + 1).drop_last() =~= rs@.take(i as int));
        assert(rs@.take(i + 1).last() == r);
        let id = r.stable_id.as_str();
        let line = not_zero(r.line);
        let count: usize = match counts.get(id) {
            Some(n) => n,
            None => 0,
        };
        counts = counts.put(id, saturating_next(count));
        if !first.contains(id) {
            first = first.put(id, line);
        }
        if let Some(kind) = kinds.get(id) {
            if kind != r.decl_kind {
                mismatch_count = saturating_next(mismatch_count);
                lines.insert(line);
            }
        }
        i += 1;
    }
    assert(rs@.take(rs@.len() as int) =~= rs@);
    ReferenceTables { counts, first, mismatch_count, mismatch_lines: lines }
}

/// The counts of the given symbols alone.
fn counts_for(symbols: &NameMap<usize>, counts: &NameMap<usize>) -> (r: NameMap<usize>)
    ensures
        r@ == Map::new(
            |id: Seq<char>| symbols@.dom().contains(id),
            |id: Seq<char>| count_of(counts@, id),
        ),
{
    let mut r = NameMap::<usize>::new();
    let n = symbols.len();
    let ghost names = symbols.names();
    let ghost want = Map::new(
        |id: Seq<char>| symbols@.dom().contains(id),
        |id: Seq<char>| count_of(counts@, id),
    );
    let mut i: usize = 0;
    assert(r@.dom() =~= names.take(0).to_set());
    while i < n
        invariant
            i <= n,
            n == names.len(),
            names == symbols.names(),
            names.no_duplicates(),
            r@.dom() == names.take(i as int).to_set(),
            forall|id: Seq<char>| #[trigger]
                r@.dom().contains(id) ==> r@[id] == count_of(counts@, id),
        decreases n - i,
    {
        let id = symbols.name(i);
        proof {
            crate::names::lemma_take_insert(names, i as int);
        }
        let count: usize = match counts.get(id) {
            Some(c) => c,
            None => 0,
        };
        r = r.put(id, count);
        assert(r@.dom() =~= names.take(i + 1).to_set());
        i += 1;
    }
    assert(names.take(n as int) =~= names);
    assert(r@ =~= want);
    r
}

fn collect_scopes(ss: &[SemanticScope]) -> (r: ScopeStructure)
    ensures
        r.counts == scope_counts(ss@),
        r.ranges_by_kind@ == scope_ranges(ss@),
        r.preprocessor_ranges@ == preprocessor_ranges(ss@),
{
    let mut counts = SemanticScopeCounts {
        namespace: 0,
        type_scope: 0,
        function: 0,
        preprocessor: 0,
    };
    let mut all: Vec<ScopeRange> = Vec::new();
    let mut macros: Vec<(usize, usize)> = Vec::new();
    let mut i: usize = 0;
    while i < ss.len()
        invariant
            i <= ss@.len(),
            counts == scope_counts(ss@.take(i as int)),
            all@ == scope_ranges(ss@.take(i as int)),
            macros@ == preprocessor_ranges(ss@.take(i as int)),
        decreases ss@.len() - i,
    {
        let s = ss[i];
        let ghost was = all@;
        assert(ss@.take(i + 1).drop_last() =~= ss@.take(i as int));
        assert(ss@.take(i + 1).last() == s);
        let start = not_zero(s.start_line);
        let end: usize = if s.end_line < start {
            start
        } else {
            s.end_line
        };
        match s.kind {
            SemanticScopeKind::Namespace => {
                counts.namespace = saturating_next(counts.namespace);
            },
            SemanticScopeKind::Type => {
                counts.type_scope = saturating_next(counts.type_scope);
            },
            SemanticScopeKind::Function => {
                counts.function = saturating_next(counts.function);
            },
            SemanticScopeKind::Preprocessor => {
                counts.preprocessor = saturating_next(counts.preprocessor);
                add_range(&mut macros, (start, end));
            },
            _ => {},
        }
        all.push(ScopeRange { node: s.node, start, end });
        assert(all@ =~= scope_ranges(ss@.take(i + 1)));
        i += 1;
    }
    assert(ss@.take(ss@.len() as int) =~= ss@);
    ScopeStructure { counts, ranges_by_kind: all, preprocessor_ranges: macros }
}

/// Takes the snapshot of a file.
pub fn build(context: &SemanticFileContext) -> (r: SemanticContractSnapshot)
    ensures
        r@ == snapshot_of(*context),
{
    let tables = collect_declarations(context.declarations.as_slice());
    let uses = collect_references(context.references.as_slice(), &tables.kinds);
    let usr_ref_counts = counts_for(&tables.usr_decl_lines, &uses.counts);
    let scopes = collect_scopes(context.scopes.as_slice());
    let r = SemanticContractSnapshot {
        summary: context.summary,
        identity: SymbolIdentity {
            usr_ref_counts,
            usr_decl_lines: tables.usr_decl_lines,
            decl_ids_by_line: tables.places,
            kind_by_decl_id: tables.kinds,
            decl_ids: tables.ids,
            id_decl_lines: tables.lines,
            ref_id_counts: uses.counts,
            ref_first_line: uses.first,
        },
        scopes,
        issues: SemanticIssues {
            identity_count: tables.issue_count,
            identity_lines: tables.issue_lines,
            mismatch_count: uses.mismatch_count,
            mismatch_lines: uses.mismatch_lines,
        },
    };
    assert(r@ =~= snapshot_of(*context));
    r
}

/// Each symbol is counted as often as it is used.
pub proof fn lemma_ref_counts(rs: Seq<SemanticReference>, id: Seq<char>)
    requires
        rs.len() <= usize::MAX,
    ensures
        count_of(ref_counts(rs), id) == rs.filter(
            |r: SemanticReference| r.stable_id@ == id,
        ).len(),
        ref_counts(rs).dom().contains(id) <==> count_of(ref_counts(rs), id) > 0,
        count_of(ref_counts(rs), id) <= rs.len(),
    decreases rs.len(),
{
    let is_use = |r: SemanticReference| r.stable_id@ == id;
    reveal(Seq::filter);
    if rs.len() > 0 {
        lemma_ref_counts(rs.drop_last(), id);
    }
}

/// The counted scopes are among the scopes of the file.
pub proof fn lemma_scope_counts(ss: Seq<SemanticScope>)
    requires
        ss.len() <= usize::MAX,
    ensures
        scope_counts(ss).sum() <= ss.len(),
    decreases ss.len(),
{
    if ss.len() > 0 {
        lemma_scope_counts(ss.drop_last());
    }
}

proof fn lemma_declared(ds: Seq<SemanticDeclaration>, d: SemanticDeclaration)
    ensures
        declared(ds).contains(d) <==> ds.contains(d) && d.kind != 30,
    decreases ds.len(),
{
    if ds.len() > 0 {
        let head = ds.drop_last();
        let rest = declared(head);
        let all = declared(ds);
        lemma_declared(head, d);
        assert(ds[ds.len() - 1] == ds.last());
        if head.contains(d) {
            let k = choose|k: int| 0 <= k < head.len() && head[k] == d;
            assert(ds[k] == d);
        }
        if ds.contains(d) {
            let k = choose|k: int| 0 <= k < ds.len() && ds[k] == d;
            if k < head.len() {
                assert(head[k] == d);
            } else if d.kind != 30 {
                assert(all[rest.len() as int] == d);
            }
        }
        if rest.contains(d) {
            let k = choose|k: int| 0 <= k < rest.len() && rest[k] == d;
            assert(all[k] == d);
        }
        if all.contains(d) {
            let k = choose|k: int| 0 <= k < all.len() && all[k] == d;
            if k < rest.len() {
                assert(rest[k] == d);
            }
        }
    }
}

proof fn lemma_decl_tables(ds: Seq<SemanticDeclaration>, id: Seq<char>, line: usize)
    ensures
        decl_lines(ds).dom().contains(id) <==> exists|k: int|
            0 <= k < ds.len() && (#[trigger] ds[k]).stable_id@ == id,
        decl_kinds(ds).dom() == decl_lines(ds).dom(),
        decl_kinds(ds).dom().contains(id) ==> exists|k: int|
            0 <= k < ds.len() && (#[trigger] ds[k]).stable_id@ == id && ds[k].kind
                == decl_kinds(ds)[id],
        decl_places(ds).contains((line, id)) <==> exists|k: int|
            0 <= k < ds.len() && (#[trigger] ds[k]).stable_id@ == id && line == (if ds[k].line
                == 0 {
                1
            } else {
                ds[k].line
            }),
        identity_issues(ds) > 0 <==> exists|k: int|
            0 <= k < ds.len() && #[trigger] identity_issue(ds[k]),
        identity_lines(ds).contains(line) <==> exists|k: int|
            0 <= k < ds.len() && #[trigger] identity_issue(ds[k]) && line == (if ds[k].line == 0 {
                1
            } else {
                ds[k].line
            }),
    decreases ds.len(),
{
    if ds.len() > 0 {
        let head = ds.drop_last();
        lemma_decl_tables(head, id, line);
        assert forall|k: int| 0 <= k < head.len() implies head[k] == #[trigger] ds[k] by {}
        assert(ds[ds.len() - 1] == ds.last());
        assert(decl_kinds(ds).dom() =~= decl_lines(ds).dom());
        if exists|k: int| 0 <= k < ds.len() && (#[trigger] ds[k]).stable_id@ == id {
            let k = choose|k: int| 0 <= k < ds.len() && (#[trigger] ds[k]).stable_id@ == id;
            if k < head.len() {
                assert(head[k].stable_id@ == id);
            }
        }
        if exists|k: int| 0 <= k < head.len() && (#[trigger] head[k]).stable_id@ == id {
            let k = choose|k: int| 0 <= k < head.len() && (#[trigger] head[k]).stable_id@ == id;
            assert(ds[k].stable_id@ == id);
        }
        if decl_kinds(head).dom().contains(id) {
            let k = choose|k: int|
                0 <= k < head.len() && (#[trigger] head[k]).stable_id@ == id && head[k].kind
                    == decl_kinds(head)[id];
            assert(ds[k].stable_id@ == id);
        }
        if decl_places(head).contains((line, id)) {
            let k = choose|k: int|
                0 <= k < head.len() && (#[trigger] head[k]).stable_id@ == id && line == (
                if head[k].line == 0 {
                    1
                } else {
                    head[k].line
                });
            assert(ds[k].stable_id@ == id);
        }
        if exists|k: int|
            0 <= k < ds.len() && (#[trigger] ds[k]).stable_id@ == id && line == (if ds[k].line
                == 0 {
                1
            } else {
                ds[k].line
            }) {
            let k = choose|k: int|
                0 <= k < ds.len() && (#[trigger] ds[k]).stable_id@ == id && line == (if ds[k].line
                    == 0 {
                    1
                } else {
                    ds[k].line
                });
            if k < head.len() {
                assert(head[k].stable_id@ == id);
            }
        }
        if exists|k: int| 0 <= k < head.len() && #[trigger] identity_issue(head[k]) {
            let k = choose|k: int| 0 <= k < head.len() && #[trigger] identity_issue(head[k]);
            assert(identity_issue(ds[k]));
        }
        if exists|k: int| 0 <= k < ds.len() && #[trigger] identity_issue(ds[k]) {
            let k = choose|k: int| 0 <= k < ds.len() && #[trigger] identity_issue(ds[k]);
            if k < head.len() {
                assert(identity_issue(head[k]));
            }
        }
        if identity_lines(head).contains(line) {
            let k = choose|k: int|
                0 <= k < head.len() && #[trigger] identity_issue(head[k]) && line == (
                if head[k].line == 0 {
                    1
                } else {
                    head[k].line
                });
            assert(identity_issue(ds[k]));
        }
        if exists|k: int|
            0 <= k < ds.len() && #[trigger] identity_issue(ds[k]) && line == (if ds[k].line == 0 {
                1
            } else {
                ds[k].line
            }) {
            let k = choose|k: int|
                0 <= k < ds.len() && #[trigger] identity_issue(ds[k]) && line == (if ds[k].line
                    == 0 {
                    1
                } else {
                    ds[k].line
                });
            if k < head.len() {
                assert(identity_issue(head[k]));
            }
        }
        if identity_issue(ds.last()) {
            assert(identity_issue(ds[ds.len() - 1]));
        }
        assert(decl_lines(ds).dom() =~= decl_lines(head).dom().insert(ds.last().stable_id@));
    }
}

/// What a snapshot takes of the declarations of a file: a symbol is declared
/// where some declaration of it is no function template, on the line of that
/// declaration.
pub proof fn lemma_snapshot_of_declarations(
    context: SemanticFileContext,
    id: Seq<char>,
    line: usize,
)
    ensures
        ({
            let ds = context.declarations@;
            let s = snapshot_of(context);
            &&& s.decl_ids.contains(id) <==> exists|k: int|
                0 <= k < ds.len() && (#[trigger] ds[k]).stable_id@ == id && ds[k].kind != 30
            &&& line > 0 ==> (s.decl_ids_by_line.contains((line, id)) <==> exists|k: int|
                0 <= k < ds.len() && (#[trigger] ds[k]).stable_id@ == id && ds[k].kind != 30 && (
                ds[k].line == line || (ds[k].line == 0 && line == 1)))
            &&& s.identity_count > 0 <==> exists|k: int|
                0 <= k < ds.len() && (#[trigger] ds[k]).kind != 30 && (ds[k].provenance
                    == SemanticIdProvenance::Usr) != (ds[k].stable_id@.len() >= 4
                    && ds[k].stable_id@.take(4) == "usr:"@)
        }),
{
    reveal_strlit("usr:");
    let all = context.declarations@;
    let ds = declared(all);
    lemma_decl_tables(ds, id, line);
    assert forall|k: int| 0 <= k < ds.len() implies all.contains(#[trigger] ds[k]) && ds[k].kind
        != 30 by {
        lemma_declared(all, ds[k]);
        assert(ds.contains(ds[k]));
    }
    assert forall|m: int| 0 <= m < all.len() && (#[trigger] all[m]).kind != 30 implies ds.contains(
        all[m],
    ) by {
        lemma_declared(all, all[m]);
        assert(all.contains(all[m]));
    }
    if exists|k: int| 0 <= k < ds.len() && (#[trigger] ds[k]).stable_id@ == id {
        let k = choose|k: int| 0 <= k < ds.len() && (#[trigger] ds[k]).stable_id@ == id;
        let m = choose|m: int| 0 <= m < all.len() && all[m] == ds[k];
        assert(all[m].stable_id@ == id);
    }
    if exists|m: int| 0 <= m < all.len() && (#[trigger] all[m]).stable_id@ == id && all[m].kind
        != 30 {
        let m = choose|m: int|
            0 <= m < all.len() && (#[trigger] all[m]).stable_id@ == id && all[m].kind != 30;
        let k = choose|k: int| 0 <= k < ds.len() && ds[k] == all[m];
        assert(ds[k].stable_id@ == id);
    }
    if decl_places(ds).contains((line, id)) {
        let k = choose|k: int|
            0 <= k < ds.len() && (#[trigger] ds[k]).stable_id@ == id && line == (if ds[k].line
                == 0 {
                1
            } else {
                ds[k].line
            });
        let m = choose|m: int| 0 <= m < all.len() && all[m] == ds[k];
        assert(all[m].stable_id@ == id);
    }
    if line > 0 && exists|m: int|
        0 <= m < all.len() && (#[trigger] all[m]).stable_id@ == id && all[m].kind != 30 && (
        all[m].line == line || (all[m].line == 0 && line == 1)) {
        let m = choose|m: int|
            0 <= m < all.len() && (#[trigger] all[m]).stable_id@ == id && all[m].kind != 30 && (
            all[m].line == line || (all[m].line == 0 && line == 1));
        let k = choose|k: int| 0 <= k < ds.len() && ds[k] == all[m];
        assert(ds[k].stable_id@ == id);
    }
    if exists|k: int| 0 <= k < ds.len() && #[trigger] identity_issue(ds[k]) {
        let k = choose|k: int| 0 <= k < ds.len() && #[trigger] identity_issue(ds[k]);
        let m = choose|m: int| 0 <= m < all.len() && all[m] == ds[k];
        assert(all[m].kind != 30);
    }
    if exists|m: int|
        0 <= m < all.len() && (#[trigger] all[m]).kind != 30 && (all[m].provenance
            == SemanticIdProvenance::Usr) != (all[m].stable_id@.len() >= 4
            && all[m].stable_id@.take(4) == "usr:"@) {
        let m = choose|m: int|
            0 <= m < all.len() && (#[trigger] all[m]).kind != 30 && (all[m].provenance
                == SemanticIdProvenance::Usr) != (all[m].stable_id@.len() >= 4
                && all[m].stable_id@.take(4) == "usr:"@);
        let k = choose|k: int| 0 <= k < ds.len() && ds[k] == all[m];
        assert(identity_issue(ds[k]));
    }
}

proof fn lemma_mismatches(kinds: Map<Seq<char>, i32>, rs: Seq<SemanticReference>, line: usize)
    ensures
        mismatches(kinds, rs) > 0 <==> exists|k: int|
            0 <= k < rs.len() && #[trigger] mismatch(kinds, rs[k]),
        mismatch_lines(kinds, rs).contains(line) <==> exists|k: int|
            0 <= k < rs.len() && #[trigger] mismatch(kinds, rs[k]) && line == (if rs[k].line == 0 {
                1
            } else {
                rs[k].line
            }),
    decreases rs.len(),
{
    if rs.len() > 0 {
        let head = rs.drop_last();
        lemma_mismatches(kinds, head, line);
        assert(rs[rs.len() - 1] == rs.last());
        assert forall|k: int| 0 <= k < head.len() implies head[k] == #[trigger] rs[k] by {}
        if exists|k: int| 0 <= k < head.len() && #[trigger] mismatch(kinds, head[k]) {
            let k = choose|k: int| 0 <= k < head.len() && #[trigger] mismatch(kinds, head[k]);
            assert(mismatch(kinds, rs[k]));
        }
        if exists|k: int| 0 <= k < rs.len() && #[trigger] mismatch(kinds, rs[k]) {
            let k = choose|k: int| 0 <= k < rs.len() && #[trigger] mismatch(kinds, rs[k]);
            if k < head.len() {
                assert(mismatch(kinds, head[k]));
            }
        }
        if mismatch_lines(kinds, head).contains(line) {
            let k = choose|k: int|
                0 <= k < head.len() && #[trigger] mismatch(kinds, head[k]) && line == (
                if head[k].line == 0 {
                    1
                } else {
                    head[k].line
                });
            assert(mismatch(kinds, rs[k]));
        }
        if exists|k: int|
            0 <= k < rs.len() && #[trigger] mismatch(kinds, rs[k]) && line == (if rs[k].line == 0 {
                1
            } else {
                rs[k].line
            }) {
            let k = choose|k: int|
                0 <= k < rs.len() && #[trigger] mismatch(kinds, rs[k]) && line == (if rs[k].line
                    == 0 {
                    1
                } else {
                    rs[k].line
                });
            if k < head.len() {
                assert(mismatch(kinds, head[k]));
            }
        }
        if mismatch(kinds, rs.last()) {
            assert(mismatch(kinds, rs[rs.len() - 1]));
        }
    }
}

/// A use that takes its symbol for something else than every declaration of it
/// is counted, with its line; and where every use agrees with every declaration
/// of its symbol, none is.
pub proof fn lemma_snapshot_of_uses(context: SemanticFileContext, r: int)
    ensures
        ({
            let ds = context.declarations@;
            let rs = context.references@;
            let s = snapshot_of(context);
            &&& 0 <= r < rs.len() && (exists|k: int|
                0 <= k < ds.len() && (#[trigger] ds[k]).stable_id@ == rs[r].stable_id@
                    && ds[k].kind != 30) && (forall|k: int|
                0 <= k < ds.len() && (#[trigger] ds[k]).stable_id@ == rs[r].stable_id@
                    && ds[k].kind != 30 ==> ds[k].kind != rs[r].decl_kind) ==> s.mismatch_count > 0
                && (rs[r].line > 0 ==> s.mismatch_lines.contains(rs[r].line))
            &&& (forall|j: int, k: int|
                0 <= j < rs.len() && 0 <= k < ds.len() && (#[trigger] ds[k]).stable_id@ == (
                #[trigger] rs[j]).stable_id@ && ds[k].kind != 30 ==> ds[k].kind == rs[j].decl_kind)
                ==> s.mismatch_count == 0
        }),
{
    let all = context.declarations@;
    let ds = declared(all);
    let rs = context.references@;
    let kinds = decl_kinds(ds);
    assert forall|k: int| 0 <= k < ds.len() implies all.contains(#[trigger] ds[k]) && ds[k].kind
        != 30 by {
        lemma_declared(all, ds[k]);
        assert(ds.contains(ds[k]));
    }
    if 0 <= r < rs.len() {
        let id = rs[r].stable_id@;
        lemma_mismatches(kinds, rs, rs[r].line);
        lemma_decl_tables(ds, id, 1);
        if (exists|k: int| 0 <= k < all.len() && (#[trigger] all[k]).stable_id@ == id && all[k].kind
            != 30) && (forall|k: int|
            0 <= k < all.len() && (#[trigger] all[k]).stable_id@ == id && all[k].kind != 30
                ==> all[k].kind != rs[r].decl_kind) {
            let m = choose|m: int|
                0 <= m < all.len() && (#[trigger] all[m]).stable_id@ == id && all[m].kind != 30;
            lemma_declared(all, all[m]);
            assert(all.contains(all[m]));
            let k = choose|k: int| 0 <= k < ds.len() && ds[k] == all[m];
            assert(ds[k].stable_id@ == id);
            assert(kinds.dom().contains(id));
            let j = choose|j: int|
                0 <= j < ds.len() && (#[trigger] ds[j]).stable_id@ == id && ds[j].kind == kinds[id];
            let q = choose|q: int| 0 <= q < all.len() && all[q] == ds[j];
            assert(all[q].stable_id@ == id);
            assert(mismatch(kinds, rs[r]));
        }
    }
    if forall|j: int, k: int|
        0 <= j < rs.len() && 0 <= k < all.len() && (#[trigger] all[k]).stable_id@ == (
        #[trigger] rs[j]).stable_id@ && all[k].kind != 30 ==> all[k].kind == rs[j].decl_kind {
        lemma_mismatches(kinds, rs, 1);
        assert forall|j: int| 0 <= j < rs.len() implies !(#[trigger] mismatch(kinds, rs[j])) by {
            let id = rs[j].stable_id@;
            lemma_decl_tables(ds, id, 1);
            if kinds.dom().contains(id) {
                let k = choose|k: int|
                    0 <= k < ds.len() && (#[trigger] ds[k]).stable_id@ == id && ds[k].kind
                        == kinds[id];
                let q = choose|q: int| 0 <= q < all.len() && all[q] == ds[k];
                assert(all[q].stable_id@ == rs[j].stable_id@);
            }
        }
    }
}

} // verus!
