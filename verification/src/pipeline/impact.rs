//! What the edits of a policy reach: the scopes and the symbols around them.
use std::collections::BTreeMap;
use vstd::prelude::*;

use crate::file_context::{SemanticDeclaration, SemanticFileContext, SemanticReference, SemanticScope};
use crate::fingerprints;
use crate::fingerprints::Fingerprints;
use crate::lines;
use crate::lines::lines_of;
use crate::model;
use crate::model::{Edit, EditView};
use crate::pipeline::edit_utils;
use crate::pipeline::edit_utils::edit_lines;
use crate::ranges;
use crate::ranges::add_range;
use crate::semantic_contract::snapshot;
use crate::small_lists;
use crate::small_lists::{RangeList, SymbolList};

verus! {

broadcast use {
    vstd::std_specs::btree::group_btree_axioms,
    vstd::laws_cmp::group_laws_cmp,
};

/// How many ranges a line keeps.
pub const MAX_IMPACT_RANGES: usize = 6;

/// How many edited lines are looked at.
pub const IMPACT_LINE_CAP: usize = 256;

/// How many lines a scope may have.
pub const SCOPE_WIDTH_CAP: usize = 512;

/// How many lines a symbol may spread over.
pub const SYMBOL_WIDTH_CAP: usize = 512;

/// A range whose lines count from one and whose end is not before its start.
pub open spec fn proper(r: (usize, usize)) -> (usize, usize) {
    let start = snapshot::at_least_one(r.0);
    (
        start,
        if r.1 < start {
            start
        } else {
            r.1
        },
    )
}

/// A list of ranges with one more: it joins the last one where they touch.
pub open spec fn merge_one(list: Seq<(usize, usize)>, r: (usize, usize)) -> Seq<(usize, usize)> {
    let (start, end) = proper(r);
    if list.len() > 0 && start <= list.last().1 + 1 {
        list.drop_last().push(
            (
                list.last().0,
                if end > list.last().1 {
                    end
                } else {
                    list.last().1
                },
            ),
        )
    } else {
        list.push((start, end))
    }
}

/// The ranges of an ordered list, those that touch made one.
pub open spec fn merged(list: Seq<(usize, usize)>) -> Seq<(usize, usize)>
    decreases list.len(),
{
    if list.len() == 0 {
        Seq::empty()
    } else {
        merge_one(merged(list.drop_last()), list.last())
    }
}

/// The fewest ranges that cover the same lines, in order.
pub open spec fn normalized(list: Seq<(usize, usize)>) -> Seq<(usize, usize)> {
    merged(ranges::sorted(list))
}

/// Whether no two ranges touch, and each comes before the ones that follow.
pub open spec fn separated(list: Seq<(usize, usize)>) -> bool {
    &&& forall|i: int| 0 <= i < list.len() ==> 1 <= (#[trigger] list[i]).0 <= list[i].1
    &&& forall|i: int, j: int|
        0 <= i < j < list.len() ==> (#[trigger] list[i]).1 + 1 < (#[trigger] list[j]).0
}

/// Whether a line lies in one of the ranges, each made proper.
pub open spec fn properly_covered(line: usize, list: Seq<(usize, usize)>) -> bool {
    exists|i: int|
        0 <= i < list.len() && proper(#[trigger] list[i]).0 <= line <= proper(list[i]).1
}

proof fn lemma_merged(list: Seq<(usize, usize)>, line: usize)
    requires
        ranges::ordered(list),
    ensures
        separated(merged(list)),
        ranges::covered(line, merged(list)) == properly_covered(line, list),
        list.len() > 0 ==> merged(list).len() > 0 && merged(list).last().0 <= proper(list.last()).0,
        merged(list).len() <= list.len(),
    decreases list.len(),
{
    if list.len() > 0 {
        let head = list.drop_last();
        let r = list.last();
        lemma_merged(head, line);
        let m = merged(head);
        let all = merged(list);
        let (start, end) = proper(r);
        if head.len() > 0 {
            assert(ranges::before(list[head.len() - 1], list[head.len() as int]));
            assert(head.last() == list[head.len() - 1]);
            assert(m.last().0 <= proper(head.last()).0 <= start);
        }
        if m.len() > 0 && start <= m.last().1 + 1 {
            let n = m.len() - 1;
            assert(all.len() == m.len());
            assert forall|i: int| 0 <= i < n implies #[trigger] all[i] == m[i] by {}
            assert forall|i: int, j: int| 0 <= i < j < all.len() implies (#[trigger] all[i]).1 + 1 < (
            #[trigger] all[j]).0 by {
                assert(m[i].1 + 1 < m[j].0);
            }
            assert forall|i: int| 0 <= i < all.len() implies 1 <= (#[trigger] all[i]).0
                <= all[i].1 by {
                assert(1 <= m[i].0 <= m[i].1);
            }
        }
        assert(ranges::covered(line, all) == (ranges::covered(line, m) || start <= line <= end))
            by {
            if ranges::covered(line, all) {
                let k = choose|k: int|
                    0 <= k < all.len() && (#[trigger] all[k]).0 <= line <= all[k].1;
                if k < all.len() - 1 || (m.len() == all.len() && line <= m[k].1) {
                    assert(m[k].0 <= line <= m[k].1);
                }
            }
            if ranges::covered(line, m) {
                let k = choose|k: int| 0 <= k < m.len() && (#[trigger] m[k]).0 <= line <= m[k].1;
                assert(all[k].0 <= line <= all[k].1);
            }
            if start <= line <= end {
                assert(all[all.len() - 1].0 <= line <= all[all.len() - 1].1);
            }
        }
        assert(properly_covered(line, list) == (properly_covered(line, head) || start <= line
            <= end)) by {
            if properly_covered(line, list) {
                let k = choose|k: int|
                    0 <= k < list.len() && proper(#[trigger] list[k]).0 <= line <= proper(list[k]).1;
                if k < head.len() {
                    assert(proper(head[k]).0 <= line <= proper(head[k]).1);
                }
            }
            if properly_covered(line, head) {
                let k = choose|k: int|
                    0 <= k < head.len() && proper(#[trigger] head[k]).0 <= line <= proper(head[k]).1;
                assert(proper(list[k]).0 <= line <= proper(list[k]).1);
            }
            assert(list[list.len() - 1] == r);
        }
    }
}

/// Normalizing neither adds nor loses a line, and leaves no two ranges that
/// touch.
pub proof fn lemma_normalized(list: Seq<(usize, usize)>, line: usize)
    ensures
        separated(normalized(list)),
        ranges::covered(line, normalized(list)) == properly_covered(line, list),
{
    let s = ranges::sorted(list);
    ranges::lemma_sorted(list);
    lemma_merged(s, line);
    if properly_covered(line, list) {
        let k = choose|k: int|
            0 <= k < list.len() && proper(#[trigger] list[k]).0 <= line <= proper(list[k]).1;
        assert(list.contains(list[k]));
        assert(s.contains(list[k]));
        let m = choose|m: int| 0 <= m < s.len() && s[m] == list[k];
        assert(proper(s[m]).0 <= line <= proper(s[m]).1);
    }
    if properly_covered(line, s) {
        let k = choose|k: int|
            0 <= k < s.len() && proper(#[trigger] s[k]).0 <= line <= proper(s[k]).1;
        assert(s.contains(s[k]));
        assert(list.contains(s[k]));
        let m = choose|m: int| 0 <= m < list.len() && list[m] == s[k];
        assert(proper(list[m]).0 <= line <= proper(list[m]).1);
    }
}

fn merge_sorted(list: &[(usize, usize)]) -> (r: Vec<(usize, usize)>)
    ensures
        r@ == merged(list@),
        r@.len() <= list@.len(),
{
    let mut r: Vec<(usize, usize)> = Vec::new();
    let mut i: usize = 0;
    while i < list.len()
        invariant
            i <= list@.len(),
            r@ == merged(list@.take(i as int)),
            r@.len() <= i,
        decreases list@.len() - i,
    {
        assert(list@.take(i + 1).drop_last() =~= list@.take(i as int));
        assert(list@.take(i + 1).last() == list@[i as int]);
        let start: usize = if list[i].0 == 0 {
            1
        } else {
            list[i].0
        };
        let end: usize = if list[i].1 < start {
            start
        } else {
            list[i].1
        };
        let n = r.len();
        if n > 0 && (start == 0 || start - 1 <= r[n - 1].1) {
            let last = r[n - 1];
            if end > last.1 {
                let ghost was = r@;
                r.set(n - 1, (last.0, end));
                assert(r@ =~= was.drop_last().push((last.0, end)));
            } else {
                assert(r@ =~= r@.drop_last().push(last));
            }
        } else {
            r.push((start, end));
        }
        i += 1;
    }
    assert(list@.take(list@.len() as int) =~= list@);
    r
}

fn sort_ranges(list: &[(usize, usize)]) -> (r: Vec<(usize, usize)>)
    ensures
        r@ == ranges::sorted(list@),
{
    let mut r: Vec<(usize, usize)> = Vec::new();
    let mut i: usize = 0;
    while i < list.len()
        invariant
            i <= list@.len(),
            r@ == ranges::sorted(list@.take(i as int)),
        decreases list@.len() - i,
    {
        assert(list@.take(i + 1).drop_last() =~= list@.take(i as int));
        add_range(&mut r, list[i]);
        i += 1;
    }
    assert(list@.take(list@.len() as int) =~= list@);
    r
}

proof fn lemma_sorted_len(list: Seq<(usize, usize)>)
    ensures
        ranges::sorted(list).len() <= list.len(),
    decreases list.len(),
{
    if list.len() > 0 {
        lemma_sorted_len(list.drop_last());
        lemma_insert_len(ranges::sorted(list.drop_last()), list.last());
    }
}

proof fn lemma_insert_len(list: Seq<(usize, usize)>, r: (usize, usize))
    ensures
        ranges::insert(list, r).len() <= list.len() + 1,
    decreases list.len(),
{
    if list.len() > 0 {
        lemma_insert_len(list.drop_last(), r);
    }
}

/// Makes a list the fewest ranges that cover the same lines.
pub fn normalize_impact_ranges(list: &mut RangeList)
    requires
        old(list)@.len() <= small_lists::list_limit(),
    ensures
        final(list)@ == normalized(old(list)@),
{
    let all = list.to_vec();
    let sorted = sort_ranges(all.as_slice());
    let merged = merge_sorted(sorted.as_slice());
    proof {
        lemma_sorted_len(all@);
    }
    *list = RangeList::of(merged.as_slice());
}

/// The lines around an edit that nothing else is known of.
pub open spec fn around(line: usize, radius: usize) -> (usize, usize) {
    (
        if line > radius {
            (line - radius) as usize
        } else {
            1
        },
        if line + radius > usize::MAX {
            usize::MAX
        } else {
            snapshot::at_least_one((line + radius) as usize)
        },
    )
}

fn lines_around(line: usize, radius: usize) -> (r: (usize, usize))
    ensures
        r == around(line, radius),
{
    let from: usize = if line > radius {
        line - radius
    } else {
        1
    };
    let to: usize = if line > usize::MAX - radius {
        usize::MAX
    } else {
        line + radius
    };
    (from, if to == 0 {
        1
    } else {
        to
    })
}

/// Whether one scope is narrower than another; among equally wide ones, the
/// earlier comes first.
pub open spec fn wider(a: (usize, usize, usize), b: (usize, usize, usize)) -> bool {
    a.0 > b.0 || (a.0 == b.0 && (a.1 > b.1 || (a.1 == b.1 && a.2 > b.2)))
}

/// A list of scopes by width, with one more.
pub open spec fn insert_by_width(
    list: Seq<(usize, usize, usize)>,
    s: (usize, usize, usize),
) -> Seq<(usize, usize, usize)>
    decreases list.len(),
{
    if list.len() == 0 || !wider(list.last(), s) {
        list.push(s)
    } else {
        insert_by_width(list.drop_last(), s).push(list.last())
    }
}

/// The scopes of a file by width. A scope that ends before it starts is left
/// out.
pub open spec fn by_width(ss: Seq<SemanticScope>) -> Seq<(usize, usize, usize)>
    decreases ss.len(),
{
    if ss.len() == 0 {
        Seq::empty()
    } else {
        let rest = by_width(ss.drop_last());
        let start = snapshot::at_least_one(ss.last().start_line);
        let end = snapshot::at_least_one(ss.last().end_line);
        if start <= end {
            insert_by_width(rest, ((end - start) as usize, start, end))
        } else {
            rest
        }
    }
}

/// Whether a scope counts for a line.
pub open spec fn counts_for(s: (usize, usize, usize), line: usize) -> bool {
    s.0 < SCOPE_WIDTH_CAP && s.1 <= line <= s.2
}

/// The narrowest scopes around a line, as many as are kept.
pub open spec fn narrowest(scopes: Seq<(usize, usize, usize)>, line: usize, n: int) -> Seq<
    (usize, usize),
>
    decreases n,
{
    if n <= 0 {
        Seq::empty()
    } else {
        let rest = narrowest(scopes, line, n - 1);
        let s = scopes[n - 1];
        if counts_for(s, line) && rest.len() < MAX_IMPACT_RANGES {
            rest.push((s.1, s.2))
        } else {
            rest
        }
    }
}

/// Where symbols occur: a line with the number of a symbol.
pub open spec fn decl_marks(ds: Seq<SemanticDeclaration>, hashes: Seq<u64>, n: int) -> Seq<
    (usize, u64),
>
    decreases n,
{
    if n <= 0 {
        Seq::empty()
    } else {
        let rest = decl_marks(ds, hashes, n - 1);
        if ds[n - 1].line == 0 {
            rest
        } else {
            rest.push((ds[n - 1].line, hashes[n - 1]))
        }
    }
}

/// Where symbols are used.
pub open spec fn ref_marks(rs: Seq<SemanticReference>, hashes: Seq<u64>, n: int) -> Seq<
    (usize, u64),
>
    decreases n,
{
    if n <= 0 {
        Seq::empty()
    } else {
        let rest = ref_marks(rs, hashes, n - 1);
        if rs[n - 1].line == 0 {
            rest
        } else {
            rest.push((rs[n - 1].line, hashes[n - 1]))
        }
    }
}

/// A number put in its place in an increasing list, once.
pub open spec fn insert_number(list: Seq<u64>, n: u64) -> Seq<u64>
    decreases list.len(),
{
    if list.len() == 0 {
        seq![n]
    } else if list.last() == n {
        list
    } else if list.last() < n {
        list.push(n)
    } else {
        insert_number(list.drop_last(), n).push(list.last())
    }
}

/// The symbols on a line, in increasing order.
pub open spec fn symbols_on(marks: Seq<(usize, u64)>, line: usize) -> Seq<u64>
    decreases marks.len(),
{
    if marks.len() == 0 {
        Seq::empty()
    } else if marks.last().0 == line {
        insert_number(symbols_on(marks.drop_last(), line), marks.last().1)
    } else {
        symbols_on(marks.drop_last(), line)
    }
}

/// The first and the last line of a symbol.
pub open spec fn spread(marks: Seq<(usize, u64)>, symbol: u64) -> Option<(usize, usize)>
    decreases marks.len(),
{
    if marks.len() == 0 {
        None
    } else {
        let rest = spread(marks.drop_last(), symbol);
        let line = marks.last().0;
        if marks.last().1 != symbol {
            rest
        } else {
            match rest {
                None => Some((line, line)),
                Some((from, to)) => Some(
                    (
                        if line < from {
                            line
                        } else {
                            from
                        },
                        if line > to {
                            line
                        } else {
                            to
                        },
                    ),
                ),
            }
        }
    }
}

/// The ranges of the first `n` symbols that do not spread too far.
pub open spec fn symbol_ranges(marks: Seq<(usize, u64)>, symbols: Seq<u64>, n: int) -> Seq<
    (usize, usize),
>
    decreases n,
{
    if n <= 0 {
        Seq::empty()
    } else {
        let rest = symbol_ranges(marks, symbols, n - 1);
        match spread(marks, symbols[n - 1]) {
            Some((from, to)) => if to - from < SYMBOL_WIDTH_CAP {
                rest.push((from, to))
            } else {
                rest
            },
            None => rest,
        }
    }
}

/// What an edit of a line reaches: the scopes around it and the symbols on
/// it, or the lines around it where there are none.
pub open spec fn reach(
    scopes: Seq<(usize, usize, usize)>,
    marks: Seq<(usize, u64)>,
    line: usize,
    radius: usize,
) -> Seq<(usize, usize)> {
    let symbols = symbols_on(marks, line);
    let found = narrowest(scopes, line, scopes.len() as int) + symbol_ranges(
        marks,
        symbols,
        symbols.len() as int,
    );
    let all = if found.len() == 0 {
        seq![around(line, radius)]
    } else {
        found
    };
    let n = normalized(all);
    if n.len() > MAX_IMPACT_RANGES {
        n.take(MAX_IMPACT_RANGES as int)
    } else {
        n
    }
}

/// The edited lines that are looked at.
pub open spec fn impact_lines(edits: Seq<EditView>) -> Seq<usize> {
    let all = lines::listing(edit_utils::changed_lines(edits));
    if all.len() > IMPACT_LINE_CAP {
        all.take(IMPACT_LINE_CAP as int)
    } else {
        all
    }
}

/// The numbers of a file's symbols, in the order of its declarations and of
/// its references.
#[derive(Debug)]
pub struct SymbolHashes {
    pub declarations: Vec<u64>,
    pub references: Vec<u64>,
}

/// All places where symbols occur.
pub open spec fn marks_of(context: SemanticFileContext, hashes: SymbolHashes) -> Seq<(usize, u64)> {
    decl_marks(
        context.declarations@,
        hashes.declarations@,
        context.declarations@.len() as int,
    ) + ref_marks(
        context.references@,
        hashes.references@,
        context.references@.len() as int,
    )
}

/// The radius that is used where nothing is known.
pub open spec fn fallback_radius(radius: usize) -> usize {
    snapshot::at_least_one(radius)
}

/// What each line reaches.
pub open spec fn reach_map(
    lines: Seq<usize>,
    semantic: Option<SemanticFileContext>,
    hashes: SymbolHashes,
    radius: usize,
) -> Map<usize, Seq<(usize, usize)>> {
    Map::new(
        |line: usize| lines.contains(line),
        |line: usize|
            match semantic {
                None => seq![around(line, fallback_radius(radius))],
                Some(context) => reach(
                    by_width(context.scopes@),
                    marks_of(context, hashes),
                    line,
                    fallback_radius(radius),
                ),
            },
    )
}

/// The symbols on each line that has any.
pub open spec fn symbol_map(
    lines: Seq<usize>,
    semantic: Option<SemanticFileContext>,
    hashes: SymbolHashes,
) -> Map<usize, Seq<u64>> {
    Map::new(
        |line: usize|
            lines.contains(line) && semantic is Some && symbols_on(
                marks_of(semantic->Some_0, hashes),
                line,
            ).len() > 0,
        |line: usize| symbols_on(marks_of(semantic->Some_0, hashes), line),
    )
}

fn add_by_width(list: &mut Vec<(usize, usize, usize)>, s: (usize, usize, usize))
    ensures
        final(list)@ == insert_by_width(old(list)@, s),
{
    let ghost all = list@;
    let mut pos: usize = list.len();
    let ghost n = all.len() as int;
    assert(all.take(n) =~= all);
    assert(insert_by_width(all, s) + all.skip(n) =~= insert_by_width(all, s));
    while pos > 0
        invariant
            list@ == all,
            all == old(list)@,
            pos <= all.len(),
            insert_by_width(all, s) == insert_by_width(all.take(pos as int), s) + all.skip(
                pos as int,
            ),
        decreases pos,
    {
        let ghost head = all.take(pos as int);
        let last = list[pos - 1];
        assert(head.last() == last);
        let is_wider = last.0 > s.0 || (last.0 == s.0 && (last.1 > s.1 || (last.1 == s.1 && last.2
            > s.2)));
        if !is_wider {
            list.insert(pos, s);
            assert(list@ =~= head.push(s) + all.skip(pos as int));
            return ;
        }
        proof {
            assert(head.drop_last() =~= all.take(pos - 1));
            assert(all.skip(pos - 1) =~= seq![head.last()] + all.skip(pos as int));
            assert(insert_by_width(head, s) + all.skip(pos as int) =~= insert_by_width(
                all.take(pos - 1),
                s,
            ) + all.skip(pos - 1));
        }
        pos -= 1;
    }
    list.insert(0, s);
    proof {
        assert(all.take(0) =~= Seq::empty());
        assert(all.skip(0) =~= all);
        assert(list@ =~= insert_by_width(Seq::empty(), s) + all);
    }
}

fn scopes_by_width(ss: &[SemanticScope]) -> (r: Vec<(usize, usize, usize)>)
    ensures
        r@ == by_width(ss@),
{
    let mut r: Vec<(usize, usize, usize)> = Vec::new();
    let mut i: usize = 0;
    while i < ss.len()
        invariant
            i <= ss@.len(),
            r@ == by_width(ss@.take(i as int)),
        decreases ss@.len() - i,
    {
        assert(ss@.take(i + 1).drop_last() =~= ss@.take(i as int));
        assert(ss@.take(i + 1).last() == ss@[i as int]);
        let start: usize = if ss[i].start_line == 0 {
            1
        } else {
            ss[i].start_line
        };
        let end: usize = if ss[i].end_line == 0 {
            1
        } else {
            ss[i].end_line
        };
        if start <= end {
            add_by_width(&mut r, (end - start, start, end));
        }
        i += 1;
    }
    assert(ss@.take(ss@.len() as int) =~= ss@);
    r
}

fn narrowest_scopes(scopes: &[(usize, usize, usize)], line: usize) -> (r: Vec<(usize, usize)>)
    ensures
        r@ == narrowest(scopes@, line, scopes@.len() as int),
        r@.len() <= MAX_IMPACT_RANGES,
{
    let mut r: Vec<(usize, usize)> = Vec::new();
    let mut i: usize = 0;
    while i < scopes.len()
        invariant
            i <= scopes@.len(),
            r@ == narrowest(scopes@, line, i as int),
            r@.len() <= MAX_IMPACT_RANGES,
        decreases scopes@.len() - i,
    {
        let s = scopes[i];
        if s.0 < SCOPE_WIDTH_CAP && s.1 <= line && line <= s.2 && r.len() < MAX_IMPACT_RANGES {
            r.push((s.1, s.2));
        }
        i += 1;
    }
    r
}

fn collect_marks(context: &SemanticFileContext, hashes: &SymbolHashes) -> (r: Vec<(usize, u64)>)
    requires
        hashes.declarations@.len() == context.declarations@.len(),
        hashes.references@.len() == context.references@.len(),
    ensures
        r@ == marks_of(*context, *hashes),
        r@.len() <= context.declarations@.len() + context.references@.len(),
{
    let mut r: Vec<(usize, u64)> = Vec::new();
    let ds = &context.declarations;
    let mut i: usize = 0;
    while i < ds.len()
        invariant
            i <= ds@.len(),
            hashes.declarations@.len() == ds@.len(),
            r@ == decl_marks(ds@, hashes.declarations@, i as int),
            r@.len() <= i,
        decreases ds@.len() - i,
    {
        if ds[i].line != 0 {
            r.push((ds[i].line, hashes.declarations[i]));
        }
        i += 1;
    }
    let ghost first = r@;
    let rs = &context.references;
    let mut j: usize = 0;
    assert(r@ =~= first + ref_marks(rs@, hashes.references@, 0));
    while j < rs.len()
        invariant
            j <= rs@.len(),
            hashes.references@.len() == rs@.len(),
            r@ == first + ref_marks(rs@, hashes.references@, j as int),
            r@.len() <= first.len() + j,
        decreases rs@.len() - j,
    {
        if rs[j].line != 0 {
            r.push((rs[j].line, hashes.references[j]));
        }
        assert(r@ =~= first + ref_marks(rs@, hashes.references@, j + 1));
        j += 1;
    }
    r
}

/// Puts a number in its place in an increasing list, once.
pub fn add_number(list: &mut Vec<u64>, n: u64)
    ensures
        final(list)@ == insert_number(old(list)@, n),
        final(list)@.len() <= old(list)@.len() + 1,
{
    let ghost all = list@;
    let mut pos: usize = list.len();
    let ghost len = all.len() as int;
    assert(all.take(len) =~= all);
    assert(insert_number(all, n) + all.skip(len) =~= insert_number(all, n));
    while pos > 0
        invariant
            list@ == all,
            all == old(list)@,
            pos <= all.len(),
            insert_number(all, n) == insert_number(all.take(pos as int), n) + all.skip(pos as int),
        decreases pos,
    {
        let ghost head = all.take(pos as int);
        let last = list[pos - 1];
        assert(head.last() == last);
        if last == n {
            assert(head + all.skip(pos as int) =~= all);
            return ;
        }
        if last < n {
            list.insert(pos, n);
            assert(list@ =~= head.push(n) + all.skip(pos as int));
            return ;
        }
        proof {
            assert(head.drop_last() =~= all.take(pos - 1));
            assert(all.skip(pos - 1) =~= seq![head.last()] + all.skip(pos as int));
            assert(insert_number(head, n) + all.skip(pos as int) =~= insert_number(
                all.take(pos - 1),
                n,
            ) + all.skip(pos - 1));
        }
        pos -= 1;
    }
    list.insert(0, n);
    proof {
        assert(all.take(0) =~= Seq::empty());
        assert(all.skip(0) =~= all);
        assert(list@ =~= seq![n] + all);
    }
}

fn symbols_on_line(marks: &[(usize, u64)], line: usize) -> (r: Vec<u64>)
    ensures
        r@ == symbols_on(marks@, line),
        r@.len() <= marks@.len(),
{
    let mut r: Vec<u64> = Vec::new();
    let mut i: usize = 0;
    while i < marks.len()
        invariant
            i <= marks@.len(),
            r@ == symbols_on(marks@.take(i as int), line),
            r@.len() <= i,
        decreases marks@.len() - i,
    {
        assert(marks@.take(i + 1).drop_last() =~= marks@.take(i as int));
        assert(marks@.take(i + 1).last() == marks@[i as int]);
        if marks[i].0 == line {
            add_number(&mut r, marks[i].1);
        }
        i += 1;
    }
    assert(marks@.take(marks@.len() as int) =~= marks@);
    r
}

fn symbol_spread(marks: &[(usize, u64)], symbol: u64) -> (r: Option<(usize, usize)>)
    ensures
        r == spread(marks@, symbol),
        r is Some ==> r->Some_0.0 <= r->Some_0.1,
{
    let mut r: Option<(usize, usize)> = None;
    let mut i: usize = 0;
    while i < marks.len()
        invariant
            i <= marks@.len(),
            r == spread(marks@.take(i as int), symbol),
            r is Some ==> r->Some_0.0 <= r->Some_0.1,
        decreases marks@.len() - i,
    {
        assert(marks@.take(i + 1).drop_last() =~= marks@.take(i as int));
        assert(marks@.take(i + 1).last() == marks@[i as int]);
        let line = marks[i].0;
        if marks[i].1 == symbol {
            r = match r {
                None => Some((line, line)),
                Some((from, to)) => Some(
                    (
                        if line < from {
                            line
                        } else {
                            from
                        },
                        if line > to {
                            line
                        } else {
                            to
                        },
                    ),
                ),
            };
        }
        i += 1;
    }
    assert(marks@.take(marks@.len() as int) =~= marks@);
    r
}

/// What an edit of a line reaches, and the symbols on the line.
fn line_reach(
    scopes: &[(usize, usize, usize)],
    marks: &[(usize, u64)],
    line: usize,
    radius: usize,
) -> (r: (RangeList, SymbolList))
    requires
        marks@.len() <= small_lists::list_limit(),
    ensures
        r.0@ == reach(scopes@, marks@, line, radius),
        r.1@ == symbols_on(marks@, line),
{
    let mut found = narrowest_scopes(scopes, line);
    let ghost first = found@;
    let symbols = symbols_on_line(marks, line);
    let mut i: usize = 0;
    assert(found@ =~= first + symbol_ranges(marks@, symbols@, 0));
    while i < symbols.len()
        invariant
            i <= symbols@.len(),
            found@ == first + symbol_ranges(marks@, symbols@, i as int),
            found@.len() <= first.len() + i,
        decreases symbols@.len() - i,
    {
        if let Some((from, to)) = symbol_spread(marks, symbols[i]) {
            if to - from < SYMBOL_WIDTH_CAP {
                found.push((from, to));
            }
        }
        assert(found@ =~= first + symbol_ranges(marks@, symbols@, i + 1));
        i += 1;
    }
    if found.len() == 0 {
        found.push(lines_around(line, radius));
        assert(found@ =~= seq![around(line, radius)]);
    }
    let sorted = sort_ranges(found.as_slice());
    let mut merged = merge_sorted(sorted.as_slice());
    if merged.len() > MAX_IMPACT_RANGES {
        merged.truncate(MAX_IMPACT_RANGES);
    }
    assert(merged@ =~= reach(scopes@, marks@, line, radius));
    (RangeList::of(merged.as_slice()), SymbolList::of(symbols.as_slice()))
}

/// The ranges of each line.
pub open spec fn range_views(m: Map<usize, RangeList>) -> Map<usize, Seq<(usize, usize)>> {
    m.map_values(|list: RangeList| list@)
}

/// The symbols of each line.
pub open spec fn symbol_views(m: Map<usize, SymbolList>) -> Map<usize, Seq<u64>> {
    m.map_values(|list: SymbolList| list@)
}

/// Works out what the edits of a policy reach, given the numbers of the
/// file's symbols.
pub fn build_semantic_impact_maps(
    edits: &[Edit],
    semantic: Option<&SemanticFileContext>,
    hashes: &SymbolHashes,
    base_radius: usize,
) -> (r: (BTreeMap<usize, RangeList>, BTreeMap<usize, SymbolList>))
    requires
        semantic is Some ==> hashes.declarations@.len() == semantic->Some_0.declarations@.len()
            && hashes.references@.len() == semantic->Some_0.references@.len()
            && semantic->Some_0.declarations@.len() + semantic->Some_0.references@.len()
            <= small_lists::list_limit(),
    ensures
        range_views(r.0@) == reach_map(
            impact_lines(model::edit_views(edits@)),
            context_of(semantic),
            *hashes,
            base_radius,
        ),
        symbol_views(r.1@) == symbol_map(
            impact_lines(model::edit_views(edits@)),
            context_of(semantic),
            *hashes,
        ),
{
    let radius: usize = if base_radius == 0 {
        1
    } else {
        base_radius
    };
    let changed = edit_lines(edits);
    let mut list = lines_of(&changed);
    if list.len() > IMPACT_LINE_CAP {
        list.truncate(IMPACT_LINE_CAP);
    }
    assert(list@ =~= impact_lines(model::edit_views(edits@)));
    let mut by_line = BTreeMap::<usize, RangeList>::new();
    let mut symbols_by_line = BTreeMap::<usize, SymbolList>::new();
    let ghost known = context_of(semantic);
    let scopes = match semantic {
        Some(context) => scopes_by_width(context.scopes.as_slice()),
        None => Vec::new(),
    };
    let marks = match semantic {
        Some(context) => collect_marks(context, hashes),
        None => Vec::new(),
    };
    let mut i: usize = 0;
    assert(range_views(by_line@) =~= reach_map(list@.take(0), known, *hashes, base_radius));
    assert(symbol_views(symbols_by_line@) =~= symbol_map(list@.take(0), known, *hashes));
    while i < list.len()
        invariant
            i <= list@.len(),
            radius == fallback_radius(base_radius),
            known == context_of(semantic),
            semantic is Some ==> scopes@ == by_width(known->Some_0.scopes@) && marks@ == marks_of(
                known->Some_0,
                *hashes,
            ),
            marks@.len() <= small_lists::list_limit(),
            range_views(by_line@) == reach_map(
                list@.take(i as int),
                known,
                *hashes,
                base_radius,
            ),
            symbol_views(symbols_by_line@) == symbol_map(list@.take(i as int), known, *hashes),
        decreases list@.len() - i,
    {
        let line = list[i];
        let ghost was = by_line@;
        let ghost were = symbols_by_line@;
        proof {
            lines::lemma_take_insert(list@, i as int);
            let a = list@.take(i as int);
            let b = list@.take(i + 1);
            assert forall|l: usize| #[trigger] b.contains(l) <==> a.contains(l) || l == line by {
                assert(b.to_set().contains(l) <==> a.to_set().insert(line).contains(l));
            }
        }
        if semantic.is_some() {
            let (ranges, symbols) = line_reach(scopes.as_slice(), marks.as_slice(), line, radius);
            let ghost reached = ranges@;
            let ghost seen = symbols@;
            if symbols.len() > 0 {
                symbols_by_line.insert(line, symbols);
                assert(symbol_views(symbols_by_line@) =~= symbol_views(were).insert(line, seen));
            }
            by_line.insert(line, ranges);
            assert(range_views(by_line@) =~= range_views(was).insert(line, reached));
        } else {
            let mut one: Vec<(usize, usize)> = Vec::new();
            one.push(lines_around(line, radius));
            assert(one@ =~= seq![around(line, radius)]);
            by_line.insert(line, RangeList::of(one.as_slice()));
            assert(range_views(by_line@) =~= range_views(was).insert(
                line,
                seq![around(line, radius)],
            ));
        }
        assert(range_views(by_line@) =~= reach_map(
            list@.take(i + 1),
            known,
            *hashes,
            base_radius,
        ));
        assert(symbol_views(symbols_by_line@) =~= symbol_map(list@.take(i + 1), known, *hashes));
        i += 1;
    }
    assert(list@.take(list@.len() as int) =~= list@);
    (by_line, symbols_by_line)
}

/// What a reference to a context stands for.
pub open spec fn context_of(semantic: Option<&SemanticFileContext>) -> Option<SemanticFileContext> {
    match semantic {
        Some(context) => Some(*context),
        None => None,
    }
}

/// The identities of the declarations of a file.
pub open spec fn declared_ids(context: SemanticFileContext) -> Seq<Seq<char>> {
    context.declarations@.map_values(|d: SemanticDeclaration| d.stable_id@)
}

/// The identities that the references of a file name.
pub open spec fn referred_ids(context: SemanticFileContext) -> Seq<Seq<char>> {
    context.references@.map_values(|r: SemanticReference| r.stable_id@)
}

/// Whether symbols are numbered by their identities, as a table says.
pub open spec fn are_symbol_numbers(
    table: Map<Seq<char>, u64>,
    context: SemanticFileContext,
    hashes: SymbolHashes,
) -> bool {
    &&& fingerprints::are_numbers(table, declared_ids(context), hashes.declarations@)
    &&& fingerprints::are_numbers(table, referred_ids(context), hashes.references@)
}

/// Whether symbols are numbered by their identities.
pub open spec fn numbers_symbols(context: SemanticFileContext, hashes: SymbolHashes) -> bool {
    exists|table: Map<Seq<char>, u64>| #[trigger] are_symbol_numbers(table, context, hashes)
}

/// Numbers the symbols of a file by their identities.
pub fn hash_symbols(context: &SemanticFileContext) -> (r: SymbolHashes)
    ensures
        numbers_symbols(*context, r),
        r.declarations@.len() == context.declarations@.len(),
        r.references@.len() == context.references@.len(),
{
    let ghost ids = declared_ids(*context);
    let ghost uses = referred_ids(*context);
    let mut prints = Fingerprints::new();
    let mut declarations: Vec<u64> = Vec::new();
    let mut i: usize = 0;
    while i < context.declarations.len()
        invariant
            i <= context.declarations@.len(),
            ids == declared_ids(*context),
            fingerprints::are_numbers(prints@, ids.take(i as int), declarations@),
        decreases context.declarations@.len() - i,
    {
        let ghost before = prints@;
        let ghost held = declarations@;
        let (more, n) = prints.number(context.declarations[i].stable_id.as_str());
        prints = more;
        declarations.push(n);
        proof {
            fingerprints::lemma_next_number(before, prints@, ids, held, i as int, n);
        }
        i += 1;
    }
    let mut references: Vec<u64> = Vec::new();
    let mut j: usize = 0;
    while j < context.references.len()
        invariant
            j <= context.references@.len(),
            i == context.declarations@.len(),
            ids == declared_ids(*context),
            uses == referred_ids(*context),
            fingerprints::are_numbers(prints@, ids.take(i as int), declarations@),
            fingerprints::are_numbers(prints@, uses.take(j as int), references@),
        decreases context.references@.len() - j,
    {
        let ghost before = prints@;
        let ghost held = references@;
        let (more, n) = prints.number(context.references[j].stable_id.as_str());
        prints = more;
        references.push(n);
        proof {
            fingerprints::lemma_numbers_stay(before, prints@, ids.take(i as int), declarations@);
            fingerprints::lemma_next_number(before, prints@, uses, held, j as int, n);
        }
        j += 1;
    }
    let r = SymbolHashes { declarations, references };
    proof {
        assert(ids.take(i as int) =~= ids);
        assert(uses.take(j as int) =~= uses);
        assert(are_symbol_numbers(prints@, *context, r));
    }
    r
}

/// A reference has the number of the declaration that it names.
pub proof fn lemma_reference_has_its_declarations_number(
    context: SemanticFileContext,
    hashes: SymbolHashes,
    d: int,
    r: int,
)
    requires
        numbers_symbols(context, hashes),
        0 <= d < context.declarations@.len(),
        0 <= r < context.references@.len(),
        context.declarations@[d].stable_id@ == context.references@[r].stable_id@,
    ensures
        hashes.declarations@[d] == hashes.references@[r],
{
    let table = choose|table: Map<Seq<char>, u64>|
        are_symbol_numbers(table, context, hashes);
    assert(declared_ids(context)[d] == referred_ids(context)[r]);
    fingerprints::lemma_equal_texts(
        table,
        declared_ids(context),
        hashes.declarations@,
        referred_ids(context),
        hashes.references@,
        d,
        r,
    );
}

proof fn lemma_inserted(list: Seq<u64>, n: u64)
    ensures
        insert_number(list, n).contains(n),
        forall|x: u64| list.contains(x) ==> #[trigger] insert_number(list, n).contains(x),
    decreases list.len(),
{
    let r = insert_number(list, n);
    if list.len() == 0 {
        assert(r[0] == n);
    } else if list.last() == n {
        assert(r[list.len() - 1] == n);
    } else if list.last() < n {
        assert(r[list.len() as int] == n);
        assert forall|x: u64| list.contains(x) implies #[trigger] r.contains(x) by {
            let k = choose|k: int| 0 <= k < list.len() && list[k] == x;
            assert(r[k] == x);
        }
    } else {
        let head = list.drop_last();
        let rest = insert_number(head, n);
        lemma_inserted(head, n);
        assert(r =~= rest.push(list.last()));
        let at = choose|k: int| 0 <= k < rest.len() && rest[k] == n;
        assert(r[at] == n);
        assert forall|x: u64| list.contains(x) implies #[trigger] r.contains(x) by {
            let k = choose|k: int| 0 <= k < list.len() && list[k] == x;
            if k < head.len() {
                assert(head[k] == x);
                assert(rest.contains(x));
                let j = choose|j: int| 0 <= j < rest.len() && rest[j] == x;
                assert(r[j] == x);
            } else {
                assert(r[rest.len() as int] == x);
            }
        }
    }
}

proof fn lemma_mark_counts(marks: Seq<(usize, u64)>, k: int)
    requires
        0 <= k < marks.len(),
    ensures
        symbols_on(marks, marks[k].0).contains(marks[k].1),
    decreases marks.len(),
{
    let line = marks[k].0;
    let head = marks.drop_last();
    if marks.last().0 == line {
        lemma_inserted(symbols_on(head, line), marks.last().1);
    }
    if k < head.len() {
        lemma_mark_counts(head, k);
        assert(head[k] == marks[k]);
    }
}

proof fn lemma_declaration_is_marked(
    ds: Seq<SemanticDeclaration>,
    hashes: Seq<u64>,
    n: int,
    d: int,
)
    requires
        0 <= d < n <= ds.len(),
        ds[d].line > 0,
    ensures
        decl_marks(ds, hashes, n).contains((ds[d].line, hashes[d])),
    decreases n,
{
    let marks = decl_marks(ds, hashes, n);
    let rest = decl_marks(ds, hashes, n - 1);
    if d == n - 1 {
        assert(marks[rest.len() as int] == (ds[d].line, hashes[d]));
    } else {
        lemma_declaration_is_marked(ds, hashes, n - 1, d);
        let k = choose|k: int| 0 <= k < rest.len() && rest[k] == (ds[d].line, hashes[d]);
        assert(marks[k] == rest[k]);
    }
}

proof fn lemma_reference_is_marked(rs: Seq<SemanticReference>, hashes: Seq<u64>, n: int, r: int)
    requires
        0 <= r < n <= rs.len(),
        rs[r].line > 0,
    ensures
        ref_marks(rs, hashes, n).contains((rs[r].line, hashes[r])),
    decreases n,
{
    let marks = ref_marks(rs, hashes, n);
    let rest = ref_marks(rs, hashes, n - 1);
    if r == n - 1 {
        assert(marks[rest.len() as int] == (rs[r].line, hashes[r]));
    } else {
        lemma_reference_is_marked(rs, hashes, n - 1, r);
        let k = choose|k: int| 0 <= k < rest.len() && rest[k] == (rs[r].line, hashes[r]);
        assert(marks[k] == rest[k]);
    }
}

/// The line of a declaration and the line of a reference to it have a symbol
/// in common.
pub proof fn lemma_declaration_meets_its_uses(
    lines: Seq<usize>,
    context: SemanticFileContext,
    hashes: SymbolHashes,
    d: int,
    r: int,
)
    requires
        numbers_symbols(context, hashes),
        0 <= d < context.declarations@.len(),
        0 <= r < context.references@.len(),
        context.declarations@[d].stable_id@ == context.references@[r].stable_id@,
        context.declarations@[d].line > 0,
        context.references@[r].line > 0,
        lines.contains(context.declarations@[d].line),
        lines.contains(context.references@[r].line),
    ensures
        ({
            let map = symbol_map(lines, Some(context), hashes);
            let here = context.declarations@[d].line;
            let there = context.references@[r].line;
            &&& map.dom().contains(here)
            &&& map.dom().contains(there)
            &&& exists|n: u64| map[here].contains(n) && map[there].contains(n)
        }),
{
    let ds = context.declarations@;
    let rs = context.references@;
    let n = hashes.declarations@[d];
    lemma_reference_has_its_declarations_number(context, hashes, d, r);
    lemma_declaration_is_marked(ds, hashes.declarations@, ds.len() as int, d);
    lemma_reference_is_marked(rs, hashes.references@, rs.len() as int, r);
    let first = decl_marks(ds, hashes.declarations@, ds.len() as int);
    let second = ref_marks(rs, hashes.references@, rs.len() as int);
    let marks = marks_of(context, hashes);
    let i = choose|i: int| 0 <= i < first.len() && first[i] == (ds[d].line, n);
    let j = choose|j: int| 0 <= j < second.len() && second[j] == (rs[r].line, n);
    assert(marks[i] == first[i]);
    assert(marks[first.len() + j] == second[j]);
    lemma_mark_counts(marks, i);
    lemma_mark_counts(marks, first.len() + j);
    let map = symbol_map(lines, Some(context), hashes);
    assert(symbols_on(marks, ds[d].line).len() > 0);
    assert(symbols_on(marks, rs[r].line).len() > 0);
    assert(map[ds[d].line].contains(n) && map[rs[r].line].contains(n));
}

proof fn lemma_insert_number_holds(list: Seq<u64>, n: u64, x: u64)
    ensures
        insert_number(list, n).contains(x) <==> list.contains(x) || x == n,
    decreases list.len(),
{
    let all = insert_number(list, n);
    if list.len() == 0 {
        assert(all[0] == n);
    } else if list.last() == n {
        assert(list[list.len() - 1] == n);
    } else if list.last() < n {
        assert(all[list.len() as int] == n);
        if list.contains(x) {
            let k = choose|k: int| 0 <= k < list.len() && list[k] == x;
            assert(all[k] == x);
        }
        if all.contains(x) && x != n {
            let k = choose|k: int| 0 <= k < all.len() && all[k] == x;
            assert(list[k] == x);
        }
    } else {
        let head = list.drop_last();
        let rest = insert_number(head, n);
        lemma_insert_number_holds(head, n, x);
        assert(all == rest.push(list.last()));
        assert(all[rest.len() as int] == list.last());
        assert(list[list.len() - 1] == list.last());
        if head.contains(x) {
            let k = choose|k: int| 0 <= k < head.len() && head[k] == x;
            assert(list[k] == x);
        }
        if list.contains(x) {
            let k = choose|k: int| 0 <= k < list.len() && list[k] == x;
            if k < head.len() {
                assert(head[k] == x);
            }
        }
        if rest.contains(x) {
            let k = choose|k: int| 0 <= k < rest.len() && rest[k] == x;
            assert(all[k] == x);
        }
        if all.contains(x) {
            let k = choose|k: int| 0 <= k < all.len() && all[k] == x;
            if k < rest.len() {
                assert(rest[k] == x);
            }
        }
    }
}

/// The symbols on a line are those that are marked there.
pub proof fn lemma_symbols_on_a_line(marks: Seq<(usize, u64)>, line: usize, symbol: u64)
    ensures
        symbols_on(marks, line).contains(symbol) <==> marks.contains((line, symbol)),
    decreases marks.len(),
{
    if marks.len() > 0 {
        let head = marks.drop_last();
        lemma_symbols_on_a_line(head, line, symbol);
        lemma_insert_number_holds(symbols_on(head, line), marks.last().1, symbol);
        assert(marks[marks.len() - 1] == marks.last());
        if head.contains((line, symbol)) {
            let k = choose|k: int| 0 <= k < head.len() && head[k] == (line, symbol);
            assert(marks[k] == (line, symbol));
        }
        if marks.contains((line, symbol)) {
            let k = choose|k: int| 0 <= k < marks.len() && marks[k] == (line, symbol);
            if k < head.len() {
                assert(head[k] == (line, symbol));
            }
        }
    }
}

/// A symbol spreads from the first line on which it is marked to the last, and
/// no further.
pub proof fn lemma_spread_of_a_symbol(marks: Seq<(usize, u64)>, symbol: u64)
    ensures
        match spread(marks, symbol) {
            Some((from, to)) => {
                &&& marks.contains((from, symbol))
                &&& marks.contains((to, symbol))
                &&& forall|k: int|
                    0 <= k < marks.len() && (#[trigger] marks[k]).1 == symbol ==> from <= marks[k].0
                        <= to
            },
            None => forall|k: int| 0 <= k < marks.len() ==> (#[trigger] marks[k]).1 != symbol,
        },
    decreases marks.len(),
{
    if marks.len() > 0 {
        let head = marks.drop_last();
        lemma_spread_of_a_symbol(head, symbol);
        assert(marks[marks.len() - 1] == marks.last());
        assert forall|k: int| 0 <= k < head.len() implies head[k] == #[trigger] marks[k] by {}
        if spread(head, symbol) is Some {
            let (from, to) = spread(head, symbol)->0;
            let i = choose|i: int| 0 <= i < head.len() && head[i] == (from, symbol);
            let j = choose|j: int| 0 <= j < head.len() && head[j] == (to, symbol);
            assert(marks[i] == (from, symbol) && marks[j] == (to, symbol));
        }
        assert(marks.last().1 == symbol ==> marks.contains((marks.last().0, symbol)));
    }
}

/// Ranges that all cover one line become one range, which covers it.
proof fn lemma_one_range(list: Seq<(usize, usize)>, line: usize)
    requires
        list.len() > 0,
        forall|i: int|
            0 <= i < list.len() ==> proper(#[trigger] list[i]).0 <= line <= proper(list[i]).1,
    ensures
        normalized(list).len() == 1,
        normalized(list)[0].0 <= line <= normalized(list)[0].1,
{
    let n = normalized(list);
    lemma_normalized(list, line);
    assert(proper(list[0]).0 <= line <= proper(list[0]).1);
    assert(ranges::covered(line, n));
    if n.len() >= 2 {
        let gap = (n[0].1 + 1) as usize;
        let x = n[0].0;
        let y = n[1].0;
        assert(n[0].1 + 1 < n[1].0);
        lemma_normalized(list, x);
        lemma_normalized(list, y);
        lemma_normalized(list, gap);
        assert(1 <= n[0].0 <= n[0].1 && 1 <= n[1].0 <= n[1].1);
        assert(ranges::covered(x, n));
        assert(ranges::covered(y, n));
        let i = choose|i: int|
            0 <= i < list.len() && proper(#[trigger] list[i]).0 <= x <= proper(list[i]).1;
        let j = choose|j: int|
            0 <= j < list.len() && proper(#[trigger] list[j]).0 <= y <= proper(list[j]).1;
        if gap <= line {
            assert(proper(list[i]).0 <= gap <= proper(list[i]).1);
        } else {
            assert(proper(list[j]).0 <= gap <= proper(list[j]).1);
        }
        assert(properly_covered(gap, list));
        assert(ranges::covered(gap, n));
        let k = choose|k: int| 0 <= k < n.len() && (#[trigger] n[k]).0 <= gap <= n[k].1;
        if k >= 2 {
            assert(n[1].1 + 1 < n[k].0);
        }
    }
}

proof fn lemma_narrowest_cover(scopes: Seq<(usize, usize, usize)>, line: usize, n: int)
    requires
        0 <= n <= scopes.len(),
    ensures
        forall|i: int|
            0 <= i < narrowest(scopes, line, n).len() ==> (#[trigger] narrowest(
                scopes,
                line,
                n,
            )[i]).0 <= line <= narrowest(scopes, line, n)[i].1,
    decreases n,
{
    if n > 0 {
        lemma_narrowest_cover(scopes, line, n - 1);
        let rest = narrowest(scopes, line, n - 1);
        let all = narrowest(scopes, line, n);
        assert forall|i: int| 0 <= i < all.len() implies (#[trigger] all[i]).0 <= line
            <= all[i].1 by {
            if i < rest.len() {
                assert(all[i] == rest[i]);
            }
        }
    }
}

proof fn lemma_symbol_ranges_cover(
    marks: Seq<(usize, u64)>,
    symbols: Seq<u64>,
    line: usize,
    n: int,
)
    requires
        0 <= n <= symbols.len(),
        forall|k: int| 0 <= k < symbols.len() ==> marks.contains((line, #[trigger] symbols[k])),
    ensures
        forall|i: int|
            0 <= i < symbol_ranges(marks, symbols, n).len() ==> (#[trigger] symbol_ranges(
                marks,
                symbols,
                n,
            )[i]).0 <= line <= symbol_ranges(marks, symbols, n)[i].1,
    decreases n,
{
    if n > 0 {
        lemma_symbol_ranges_cover(marks, symbols, line, n - 1);
        let rest = symbol_ranges(marks, symbols, n - 1);
        let all = symbol_ranges(marks, symbols, n);
        lemma_spread_of_a_symbol(marks, symbols[n - 1]);
        let m = choose|m: int| 0 <= m < marks.len() && marks[m] == (line, symbols[n - 1]);
        assert(marks[m].1 == symbols[n - 1]);
        assert forall|i: int| 0 <= i < all.len() implies (#[trigger] all[i]).0 <= line
            <= all[i].1 by {
            if i < rest.len() {
                assert(all[i] == rest[i]);
            }
        }
    }
}

/// An edit of a line reaches one range of lines, and the line is in it.
pub proof fn lemma_reach_holds_its_line(
    scopes: Seq<(usize, usize, usize)>,
    marks: Seq<(usize, u64)>,
    line: usize,
    radius: usize,
)
    requires
        line > 0,
    ensures
        reach(scopes, marks, line, radius).len() == 1,
        reach(scopes, marks, line, radius)[0].0 <= line <= reach(scopes, marks, line, radius)[0].1,
{
    let symbols = symbols_on(marks, line);
    let a = narrowest(scopes, line, scopes.len() as int);
    let b = symbol_ranges(marks, symbols, symbols.len() as int);
    lemma_narrowest_cover(scopes, line, scopes.len() as int);
    assert forall|k: int| 0 <= k < symbols.len() implies marks.contains(
        (line, #[trigger] symbols[k]),
    ) by {
        assert(symbols.contains(symbols[k]));
        lemma_symbols_on_a_line(marks, line, symbols[k]);
    }
    lemma_symbol_ranges_cover(marks, symbols, line, symbols.len() as int);
    let found = a + b;
    let all = if found.len() == 0 {
        seq![around(line, radius)]
    } else {
        found
    };
    assert forall|i: int| 0 <= i < all.len() implies proper(#[trigger] all[i]).0 <= line <= proper(
        all[i],
    ).1 by {
        if found.len() > 0 {
            if i < a.len() {
                assert(all[i] == a[i]);
            } else {
                assert(all[i] == b[i - a.len()]);
            }
        }
    }
    lemma_one_range(all, line);
}

/// Where nothing is known of a file, an edit reaches as many lines to either
/// side as the radius says, from the first line on.
pub proof fn lemma_reach_without_semantics(
    lines: Seq<usize>,
    hashes: SymbolHashes,
    radius: usize,
    line: usize,
)
    requires
        lines.contains(line),
        0 < line,
        line + radius < usize::MAX,
    ensures
        ({
            let m = reach_map(lines, None, hashes, radius);
            let far = if radius == 0 {
                1
            } else {
                radius as int
            };
            &&& m.dom().contains(line)
            &&& m[line].len() == 1
            &&& m[line][0].1 == line + far
            &&& m[line][0].0 == (if line > far {
                line - far
            } else {
                1
            })
        }),
{
}

/// A scope of fewer than five hundred and twelve lines around a line is what an
/// edit of it reaches where nothing else is known; a wider one is not, and then
/// the lines around it are.
pub proof fn lemma_reach_of_a_scope(s: SemanticScope, line: usize, radius: usize)
    requires
        0 < s.start_line <= line <= s.end_line,
        line + radius < usize::MAX,
    ensures
        s.end_line - s.start_line < 512 ==> reach(by_width(seq![s]), Seq::empty(), line, radius)
            == seq![(s.start_line, s.end_line)],
        s.end_line - s.start_line >= 512 && line > radius ==> reach(
            by_width(seq![s]),
            Seq::empty(),
            line,
            radius,
        ) == seq![((line - radius) as usize, (line + radius) as usize)],
{
    let one = ((s.end_line - s.start_line) as usize, s.start_line, s.end_line);
    assert(seq![s].drop_last() =~= Seq::empty());
    assert(seq![s].last() == s);
    assert(by_width(Seq::<SemanticScope>::empty()) =~= Seq::empty());
    let scopes = by_width(seq![s]);
    assert(scopes =~= seq![one]);
    reveal_with_fuel(narrowest, 2);
    let none = Seq::<(usize, u64)>::empty();
    let symbols = symbols_on(none, line);
    assert(symbols.len() == 0);
    let found = narrowest(scopes, line, 1) + symbol_ranges(none, symbols, 0);
    if s.end_line - s.start_line < 512 {
        assert(found =~= seq![(s.start_line, s.end_line)]);
        lemma_single_range((s.start_line, s.end_line));
    } else {
        assert(found =~= Seq::empty());
        lemma_single_range(around(line, radius));
    }
}

proof fn lemma_single_range(r: (usize, usize))
    requires
        1 <= r.0 <= r.1,
    ensures
        normalized(seq![r]) == seq![r],
{
    reveal_with_fuel(ranges::sorted, 2);
    reveal_with_fuel(merged, 2);
    assert(seq![r].drop_last() =~= Seq::empty());
    assert(seq![r].last() == r);
    assert(ranges::sorted(Seq::<(usize, usize)>::empty()) =~= Seq::empty());
    assert(ranges::sorted(seq![r]) =~= seq![r]);
    assert(merged(seq![r]) =~= seq![r]);
}

/// A symbol on two lines less than five hundred and twelve apart carries the
/// edit of one to the other.
pub proof fn lemma_reach_of_a_symbol(symbol: u64, from: usize, to: usize, radius: usize)
    requires
        0 < from <= to,
        to - from < 512,
    ensures
        reach(Seq::empty(), seq![(from, symbol), (to, symbol)], from, radius) == seq![(from, to)],
        reach(Seq::empty(), seq![(from, symbol), (to, symbol)], to, radius) == seq![(from, to)],
{
    let marks = seq![(from, symbol), (to, symbol)];
    assert(marks.drop_last() =~= seq![(from, symbol)]);
    assert(marks.last() == (to, symbol));
    assert(seq![(from, symbol)].drop_last() =~= Seq::<(usize, u64)>::empty());
    assert(seq![(from, symbol)].last() == (from, symbol));
    reveal_with_fuel(symbols_on, 3);
    reveal_with_fuel(insert_number, 3);
    reveal_with_fuel(spread, 3);
    reveal_with_fuel(symbol_ranges, 2);
    assert(symbols_on(marks, from) =~= seq![symbol]);
    assert(symbols_on(marks, to) =~= seq![symbol]);
    assert(spread(marks, symbol) == Some((from, to)));
    let none = Seq::<(usize, usize, usize)>::empty();
    assert(narrowest(none, from, 0) + symbol_ranges(marks, seq![symbol], 1) =~= seq![(from, to)]);
    lemma_single_range((from, to));
}

/// Every edited line is looked at, while there are no more than two hundred and
/// fifty-six.
pub proof fn lemma_edited_lines_are_looked_at(edits: Seq<EditView>, k: int)
    requires
        edits.len() <= 256,
        0 <= k < edits.len(),
        edits[k].line > 0,
        edits[k].before != edits[k].after,
    ensures
        impact_lines(edits).contains(edits[k].line),
{
    let s = edit_utils::changed_lines(edits);
    let places = edits.map_values(|e: EditView| e.line);
    vstd::seq_lib::seq_to_set_is_finite(places);
    assert forall|line: usize| s.contains(line) implies places.to_set().contains(line) by {
        let j = choose|j: int|
            0 <= j < edits.len() && (#[trigger] edits[j]).changes() && edits[j].line == line;
        assert(places[j] == line);
    }
    assert(s.subset_of(places.to_set()));
    vstd::set_lib::lemma_len_subset(s, places.to_set());
    places.lemma_cardinality_of_set();
    lines::lemma_listing_exists(s);
    let all = lines::listing(s);
    assert(all.no_duplicates()) by {
        assert forall|i: int, j: int|
            0 <= i < all.len() && 0 <= j < all.len() && i != j implies all[i] != all[j] by {
            if i < j {
                assert(all[i] < all[j]);
            } else {
                assert(all[j] < all[i]);
            }
        }
    }
    all.unique_seq_to_set();
    assert(edits[k].changes());
    assert(s.contains(edits[k].line));
    assert(all.to_set().contains(edits[k].line));
}

} // verus!
