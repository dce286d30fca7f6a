//! Sets of line numbers.
use std::collections::BTreeSet;
use vstd::prelude::*;

use crate::text;
use crate::text::{decimal_of, join};

verus! {

broadcast use {
    vstd::std_specs::btree::group_btree_axioms,
    vstd::laws_cmp::group_laws_cmp,
};

/// Whether each element is below the ones that follow it.
pub open spec fn increasing(v: Seq<usize>) -> bool {
    forall|i: int, j: int| 0 <= i < j < v.len() ==> v[i] < v[j]
}

/// Whether `v` lists the elements of `s` in increasing order.
pub open spec fn is_listing(v: Seq<usize>, s: Set<usize>) -> bool {
    increasing(v) && v.to_set() == s
}

/// The elements of a finite set in increasing order.
pub open spec fn listing(s: Set<usize>) -> Seq<usize> {
    choose|v: Seq<usize>| is_listing(v, s)
}

proof fn lemma_listing_prefix(a: Seq<usize>, b: Seq<usize>, n: int)
    requires
        increasing(a),
        increasing(b),
        a.to_set() == b.to_set(),
        0 <= n <= a.len(),
        n <= b.len(),
    ensures
        a.take(n) == b.take(n),
    decreases n,
{
    if n > 0 {
        lemma_listing_prefix(a, b, n - 1);
        let x = a[n - 1];
        let y = b[n - 1];
        assert(a.to_set().contains(x));
        assert(b.to_set().contains(y));
        let i = choose|i: int| 0 <= i < b.len() && b[i] == x;
        let j = choose|j: int| 0 <= j < a.len() && a[j] == y;
        if i < n - 1 {
            assert(a.take(n - 1)[i] == b.take(n - 1)[i]);
            assert(a[i] == x);
        }
        if j < n - 1 {
            assert(a.take(n - 1)[j] == b.take(n - 1)[j]);
            assert(b[j] == y);
        }
        assert(x == y);
        assert(a.take(n) =~= a.take(n - 1).push(x));
        assert(b.take(n) =~= b.take(n - 1).push(y));
    }
}

/// A set has one listing only.
pub proof fn lemma_listing_unique(v: Seq<usize>, s: Set<usize>)
    requires
        is_listing(v, s),
    ensures
        listing(s) == v,
        s.finite(),
{
    let w = listing(s);
    assert(is_listing(w, s));
    if v.len() <= w.len() {
        lemma_listing_prefix(v, w, v.len() as int);
        if v.len() < w.len() {
            let x = w[v.len() as int];
            assert(w.to_set().contains(x));
            let i = choose|i: int| 0 <= i < v.len() && v[i] == x;
            assert(w.take(v.len() as int)[i] == v.take(v.len() as int)[i]);
            assert(false);
        }
    } else {
        lemma_listing_prefix(v, w, w.len() as int);
        let x = v[w.len() as int];
        assert(v.to_set().contains(x));
        let i = choose|i: int| 0 <= i < w.len() && w[i] == x;
        assert(w.take(w.len() as int)[i] == v.take(w.len() as int)[i]);
        assert(false);
    }
    assert(v.take(v.len() as int) =~= v);
    assert(w.take(w.len() as int) =~= w);
    vstd::seq_lib::seq_to_set_is_finite(v);
}

/// A finite set has a listing.
pub proof fn lemma_listing_exists(s: Set<usize>)
    requires
        s.finite(),
    ensures
        is_listing(listing(s), s),
    decreases s.len(),
{
    if s.len() == 0 {
        let none = Seq::<usize>::empty();
        assert(none.to_set() =~= s);
        assert(is_listing(none, s));
    } else {
        let top = lemma_largest(s);
        let rest = s.remove(top);
        lemma_listing_exists(rest);
        let head = listing(rest);
        let all = head.push(top);
        assert forall|i: int, j: int| 0 <= i < j < all.len() implies all[i] < all[j] by {
            if j == head.len() {
                assert(head.to_set().contains(head[i]));
                assert(rest.contains(head[i]));
            }
        }
        assert(all.to_set() =~= s) by {
            assert forall|x: usize| all.to_set().contains(x) <==> s.contains(x) by {
                if all.to_set().contains(x) {
                    let k = choose|k: int| 0 <= k < all.len() && all[k] == x;
                    if k < head.len() {
                        assert(head[k] == x);
                        assert(head.to_set().contains(x));
                    }
                }
                if s.contains(x) {
                    if x == top {
                        assert(all[head.len() as int] == x);
                    } else {
                        assert(head.to_set().contains(x));
                        let k = choose|k: int| 0 <= k < head.len() && head[k] == x;
                        assert(all[k] == x);
                    }
                }
            }
        }
        assert(is_listing(all, s));
    }
}

proof fn lemma_largest(s: Set<usize>) -> (top: usize)
    requires
        s.finite(),
        s.len() > 0,
    ensures
        s.contains(top),
        forall|x: usize| s.contains(x) ==> x <= top,
    decreases s.len(),
{
    let any = s.choose();
    let rest = s.remove(any);
    if rest.len() == 0 {
        assert forall|x: usize| s.contains(x) implies x <= any by {
            if x != any {
                assert(rest.contains(x));
                assert(rest =~= Set::empty());
            }
        }
        any
    } else {
        let other = lemma_largest(rest);
        if any > other {
            any
        } else {
            other
        }
    }
}

/// The lines of a set, in increasing order.
pub fn lines_of(lines: &BTreeSet<usize>) -> (v: Vec<usize>)
    ensures
        is_listing(v@, lines@),
        v@ == listing(lines@),
{
    let mut v: Vec<usize> = Vec::new();
    for line in it: lines.iter()
        invariant
            v@.len() == it.index(),
            forall|k: int| 0 <= k < v@.len() ==> v@[k] == *(#[trigger] it.seq()[k]),
    {
        v.push(*line);
    }
    proof {
        let seq = vstd::std_specs::iter::IteratorSpec::remaining(&vstd::std_specs::btree::spec_btree_keys_iter(lines));
        assert(v@ =~= seq.unref());
        assert(vstd::std_specs::btree::increasing_seq(seq));
        assert(vstd::laws_cmp::obeys_cmp::<&usize>());
        assert forall|i: int, j: int| 0 <= i < j < v@.len() implies v@[i] < v@[j] by {
            assert(v@[i] == *seq[i]);
            assert(v@[j] == *seq[j]);
            assert(vstd::std_specs::cmp::OrdSpec::cmp_spec(&seq[i], &seq[j]) is Less);
        }
        lemma_listing_unique(v@, lines@);
    }
    v
}

/// What one more element adds to the set of the first ones.
pub proof fn lemma_take_insert(list: Seq<usize>, i: int)
    requires
        0 <= i < list.len(),
    ensures
        list.take(i + 1).to_set() == list.take(i).to_set().insert(list[i]),
{
    let head = list.take(i);
    let next = list.take(i + 1);
    assert forall|x: usize| next.to_set().contains(x) <==> head.to_set().insert(
        list[i],
    ).contains(x) by {
        if head.to_set().contains(x) {
            let k = choose|k: int| 0 <= k < head.len() && head[k] == x;
            assert(next[k] == x);
        }
        if x == list[i] {
            assert(next[i] == x);
        }
        if next.to_set().contains(x) {
            let k = choose|k: int| 0 <= k < next.len() && next[k] == x;
            if k < i {
                assert(head[k] == x);
            }
        }
    }
    assert(next.to_set() =~= head.to_set().insert(list[i]));
}

/// Adds the lines of `more` to `lines`.
pub fn extend_lines(lines: &mut BTreeSet<usize>, more: &BTreeSet<usize>)
    ensures
        final(lines)@ == old(lines)@.union(more@),
{
    let list = lines_of(more);
    let mut i: usize = 0;
    while i < list.len()
        invariant
            i <= list@.len(),
            list@.to_set() == more@,
            lines@ == old(lines)@.union(list@.take(i as int).to_set()),
        decreases list@.len() - i,
    {
        lines.insert(list[i]);
        proof {
            lemma_take_insert(list@, i as int);
            let next = list@.take(i + 1);
            assert(lines@ =~= old(lines)@.union(next.to_set()));
        }
        i += 1;
    }
    assert(list@.take(list@.len() as int) =~= list@);
}

/// The first `max` lines of a set, as they are shown in a message.
pub open spec fn hint(lines: Set<usize>, max: int) -> Seq<char> {
    let shown = listing(lines);
    let sample = if shown.len() <= max {
        shown
    } else {
        shown.take(max)
    };
    if sample.len() == 0 {
        "none"@
    } else {
        text::joined(sample.map_values(|line: usize| text::decimal(line as nat)), ","@)
    }
}

/// Shows at most `max` lines of a set, smallest first.
pub fn line_hint(lines: &BTreeSet<usize>, max: usize) -> (r: String)
    ensures
        r@ == hint(lines@, max as int),
{
    let list = lines_of(lines);
    let count: usize = if list.len() <= max {
        list.len()
    } else {
        max
    };
    if count == 0 {
        return "none".to_owned();
    }
    let ghost sample = list@.take(count as int);
    let mut parts: Vec<String> = Vec::new();
    let mut i: usize = 0;
    while i < count
        invariant
            i <= count <= list@.len(),
            parts@.len() == i,
            forall|k: int| 0 <= k < i ==> (#[trigger] parts@[k])@ == text::decimal(
                list@[k] as nat,
            ),
        decreases count - i,
    {
        parts.push(decimal_of(list[i]));
        i += 1;
    }
    proof {
        assert(text::views(parts@) =~= sample.map_values(
            |line: usize| text::decimal(line as nat),
        ));
        if list@.len() <= max {
            assert(sample =~= list@);
        }
    }
    join(parts.as_slice(), ",")
}

/// Whether some line of the set lies between two lines, both included.
pub open spec fn has_between(lines: Set<usize>, from: int, to: int) -> bool {
    exists|line: usize| #[trigger] lines.contains(line) && from <= line <= to
}

/// Tests whether some line of the set lies between two lines.
pub fn any_between(lines: &BTreeSet<usize>, from: usize, to: usize) -> (r: bool)
    ensures
        r == has_between(lines@, from as int, to as int),
{
    let list = lines_of(lines);
    let mut i: usize = 0;
    while i < list.len()
        invariant
            i <= list@.len(),
            list@.to_set() == lines@,
            forall|k: int| 0 <= k < i ==> !(from <= #[trigger] list@[k] <= to),
        decreases list@.len() - i,
    {
        if from <= list[i] && list[i] <= to {
            assert(list@.to_set().contains(list@[i as int]));
            return true;
        }
        i += 1;
    }
    assert forall|line: usize| #[trigger] lines@.contains(line) implies !(from <= line <= to) by {
        assert(list@.to_set().contains(line));
        let k = choose|k: int| 0 <= k < list@.len() && list@[k] == line;
        assert(!(from <= list@[k] <= to));
    }
    false
}

/// Whether a line lies within `radius` lines of a set. There is no line zero.
pub open spec fn near(line: usize, lines: Set<usize>, radius: usize) -> bool {
    line > 0 && has_between(lines, line - radius, line + radius)
}

/// Tests whether a line lies within `radius` lines of a set.
pub fn line_near(line: usize, lines: &BTreeSet<usize>, radius: usize) -> (r: bool)
    ensures
        r == near(line, lines@, radius),
{
    if line == 0 {
        return false;
    }
    let from: usize = if line < radius {
        0
    } else {
        line - radius
    };
    let to: usize = if line > usize::MAX - radius {
        usize::MAX
    } else {
        line + radius
    };
    let r = any_between(lines, from, to);
    proof {
        if has_between(lines@, line - radius, line + radius) {
            let l = choose|l: usize| #[trigger]
                lines@.contains(l) && line - radius <= l <= line + radius;
            assert(lines@.contains(l) && from <= l <= to);
        }
    }
    r
}

/// The first `max` lines of a set, and how many are left out.
pub open spec fn counted_hint(lines: Set<usize>, max: int) -> Seq<char> {
    let shown = listing(lines);
    let numbers = shown.map_values(|line: usize| text::decimal(line as nat));
    if shown.len() <= max {
        text::joined(numbers, ","@)
    } else {
        text::joined(
            numbers.take(max).push("+"@ + text::decimal((shown.len() - max) as nat)),
            ","@,
        )
    }
}

/// Shows at most `max` lines of a set, and how many are left out.
pub fn counted_line_hint(lines: &BTreeSet<usize>, max: usize) -> (r: String)
    ensures
        r@ == counted_hint(lines@, max as int),
{
    let list = lines_of(lines);
    let count: usize = if list.len() <= max {
        list.len()
    } else {
        max
    };
    let ghost numbers = list@.map_values(|line: usize| text::decimal(line as nat));
    let mut parts: Vec<String> = Vec::new();
    let mut i: usize = 0;
    while i < count
        invariant
            i <= count <= list@.len(),
            parts@.len() == i,
            forall|k: int| 0 <= k < i ==> (#[trigger] parts@[k])@ == text::decimal(
                list@[k] as nat,
            ),
        decreases count - i,
    {
        parts.push(decimal_of(list[i]));
        i += 1;
    }
    assert(text::views(parts@) =~= numbers.take(count as int));
    if list.len() > count {
        let ghost was = parts@;
        let mut rest = "+".to_owned();
        rest.append(decimal_of(list.len() - count).as_str());
        parts.push(rest);
        assert(text::views(parts@) =~= text::views(was).push(rest@));
    } else {
        assert(numbers.take(count as int) =~= numbers);
    }
    join(parts.as_slice(), ",")
}

} // verus!
