//! Ranges of lines, given by their first and last line.
use vstd::prelude::*;

verus! {

/// The order of ranges: by the first line, then by the last.
pub open spec fn before(a: (usize, usize), b: (usize, usize)) -> bool {
    a.0 < b.0 || (a.0 == b.0 && a.1 < b.1)
}

/// Whether each range comes before the ones that follow it.
pub open spec fn ordered(list: Seq<(usize, usize)>) -> bool {
    forall|i: int, j: int| 0 <= i < j < list.len() ==> before(#[trigger] list[i], #[trigger] list[j])
}

/// An ordered list with one more range; one that is there is not repeated.
pub open spec fn insert(list: Seq<(usize, usize)>, range: (usize, usize)) -> Seq<(usize, usize)>
    decreases list.len(),
{
    if list.len() == 0 {
        seq![range]
    } else if list.last() == range {
        list
    } else if before(list.last(), range) {
        list.push(range)
    } else {
        insert(list.drop_last(), range).push(list.last())
    }
}

/// The different ranges of a list, in order.
pub open spec fn sorted(list: Seq<(usize, usize)>) -> Seq<(usize, usize)>
    decreases list.len(),
{
    if list.len() == 0 {
        Seq::empty()
    } else {
        insert(sorted(list.drop_last()), list.last())
    }
}

proof fn lemma_insert(list: Seq<(usize, usize)>, range: (usize, usize))
    requires
        ordered(list),
    ensures
        ordered(insert(list, range)),
        forall|x: (usize, usize)| #[trigger]
            insert(list, range).contains(x) <==> list.contains(x) || x == range,
    decreases list.len(),
{
    let r = insert(list, range);
    if list.len() == 0 {
        assert(r[0] == range);
    } else if list.last() == range {
        assert(list.contains(range));
    } else if before(list.last(), range) {
        assert forall|x: (usize, usize)| #[trigger] r.contains(x) <==> list.contains(x) || x
            == range by {
            if list.contains(x) {
                let k = choose|k: int| 0 <= k < list.len() && list[k] == x;
                assert(r[k] == x);
            }
            assert(r[list.len() as int] == range);
        }
    } else {
        let head = list.drop_last();
        lemma_insert(head, range);
        let h = insert(head, range);
        assert forall|i: int, j: int| 0 <= i < j < r.len() implies before(
            #[trigger] r[i],
            #[trigger] r[j],
        ) by {
            if j == r.len() - 1 {
                assert(h.contains(h[i]));
                if h[i] != range {
                    let k = choose|k: int| 0 <= k < head.len() && head[k] == h[i];
                    assert(list[k] == h[i]);
                }
            }
        }
        assert forall|x: (usize, usize)| #[trigger] r.contains(x) <==> list.contains(x) || x
            == range by {
            if r.contains(x) {
                let k = choose|k: int| 0 <= k < r.len() && r[k] == x;
                if k < h.len() {
                    assert(h.contains(x));
                    if head.contains(x) {
                        let m = choose|m: int| 0 <= m < head.len() && head[m] == x;
                        assert(list[m] == x);
                    }
                } else {
                    assert(list[list.len() - 1] == x);
                }
            }
            if list.contains(x) || x == range {
                if x == list.last() {
                    assert(r[r.len() - 1] == x);
                } else {
                    if list.contains(x) {
                        let m = choose|m: int| 0 <= m < list.len() && list[m] == x;
                        assert(head[m] == x);
                    }
                    assert(h.contains(x));
                    let k = choose|k: int| 0 <= k < h.len() && h[k] == x;
                    assert(r[k] == x);
                }
            }
        }
    }
}

/// Sorting puts the ranges in order and keeps each of them.
pub proof fn lemma_sorted(list: Seq<(usize, usize)>)
    ensures
        ordered(sorted(list)),
        forall|x: (usize, usize)| #[trigger] sorted(list).contains(x) <==> list.contains(x),
    decreases list.len(),
{
    if list.len() > 0 {
        let head = list.drop_last();
        lemma_sorted(head);
        lemma_insert(sorted(head), list.last());
        assert forall|x: (usize, usize)| #[trigger]
            sorted(list).contains(x) <==> list.contains(x) by {
            if list.contains(x) && x != list.last() {
                let k = choose|k: int| 0 <= k < list.len() && list[k] == x;
                assert(head[k] == x);
            }
            if head.contains(x) {
                let k = choose|k: int| 0 <= k < head.len() && head[k] == x;
                assert(list[k] == x);
            }
            assert(list[list.len() - 1] == list.last());
        }
    }
}

/// Puts a range into its place in an ordered list.
pub fn add_range(list: &mut Vec<(usize, usize)>, range: (usize, usize))
    ensures
        final(list)@ == insert(old(list)@, range),
{
    let ghost all = list@;
    let mut pos: usize = list.len();
    let ghost n = all.len() as int;
    assert(all.take(n) =~= all);
    assert(insert(all, range) + all.skip(n) =~= insert(all, range));
    while pos > 0
        invariant
            list@ == all,
            all == old(list)@,
            pos <= all.len(),
            insert(all, range) == insert(all.take(pos as int), range) + all.skip(pos as int),
        decreases pos,
    {
        let ghost head = all.take(pos as int);
        let last = list[pos - 1];
        assert(head.last() == last);
        if last.0 == range.0 && last.1 == range.1 {
            assert(head + all.skip(pos as int) =~= all);
            return ;
        }
        if last.0 < range.0 || (last.0 == range.0 && last.1 < range.1) {
            list.insert(pos, range);
            assert(list@ =~= head.push(range) + all.skip(pos as int));
            return ;
        }
        proof {
            assert(head.drop_last() =~= all.take(pos - 1));
            assert(all.skip(pos - 1) =~= seq![head.last()] + all.skip(pos as int));
            assert(insert(head, range) + all.skip(pos as int) =~= insert(all.take(pos - 1), range)
                + all.skip(pos - 1));
        }
        pos -= 1;
    }
    list.insert(0, range);
    proof {
        assert(all.take(0) =~= Seq::empty());
        assert(all.skip(0) =~= all);
        assert(list@ =~= seq![range] + all);
    }
}

/// Whether a line lies in one of the ranges.
pub open spec fn covered(line: usize, list: Seq<(usize, usize)>) -> bool {
    exists|i: int| 0 <= i < list.len() && (#[trigger] list[i]).0 <= line <= list[i].1
}

/// Tests whether a line lies in one of the ranges.
pub fn line_in_ranges(line: usize, ranges: &[(usize, usize)]) -> (r: bool)
    ensures
        r == covered(line, ranges@),
{
    let mut i: usize = 0;
    while i < ranges.len()
        invariant
            i <= ranges@.len(),
            forall|k: int|
                0 <= k < i ==> !((#[trigger] ranges@[k]).0 <= line <= ranges@[k].1),
        decreases ranges@.len() - i,
    {
        if ranges[i].0 <= line && line <= ranges[i].1 {
            return true;
        }
        i += 1;
    }
    false
}

} // verus!
