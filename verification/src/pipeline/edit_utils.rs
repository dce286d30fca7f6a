//! Edits and texts: how one is made from the other.
use std::collections::BTreeSet;
use vstd::prelude::*;

use crate::line_text;
use crate::line_text::split_lines;
use crate::lines;
use crate::model;
use crate::model::{Edit, EditView, PolicyResult, ResultView};
use crate::text;
use crate::text::str_eq;

verus! {

broadcast use {
    vstd::std_specs::btree::group_btree_axioms,
    vstd::laws_cmp::group_laws_cmp,
};

/// How many lines two texts share at the start.
pub open spec fn common_prefix(b: Seq<Seq<char>>, a: Seq<Seq<char>>) -> nat
    decreases b.len(),
{
    if b.len() > 0 && a.len() > 0 && b[0] == a[0] {
        1 + common_prefix(b.drop_first(), a.drop_first())
    } else {
        0
    }
}

/// How many lines two texts share at the end.
pub open spec fn common_suffix(b: Seq<Seq<char>>, a: Seq<Seq<char>>) -> nat
    decreases b.len(),
{
    if b.len() > 0 && a.len() > 0 && b.last() == a.last() {
        1 + common_suffix(b.drop_last(), a.drop_last())
    } else {
        0
    }
}

/// What is left of `x` between the shared start and the shared end.
pub open spec fn middle(x: Seq<Seq<char>>, prefix: nat, suffix: nat) -> Seq<Seq<char>> {
    x.subrange(prefix as int, x.len() - suffix)
}

/// Line `i` of a block; nothing beyond its end.
pub open spec fn line_at(block: Seq<Seq<char>>, i: int) -> Seq<char> {
    if 0 <= i < block.len() {
        block[i]
    } else {
        Seq::empty()
    }
}

/// The edits that turn one block into the other, line by line, for the first
/// `n` lines. `first` lines come before the blocks.
pub open spec fn block_edits(
    b: Seq<Seq<char>>,
    a: Seq<Seq<char>>,
    first: int,
    policy: Seq<char>,
    n: int,
) -> Seq<EditView>
    decreases n,
{
    if n <= 0 {
        Seq::empty()
    } else {
        let rest = block_edits(b, a, first, policy, n - 1);
        let left = line_at(b, n - 1);
        let right = line_at(a, n - 1);
        if left == right {
            rest
        } else {
            rest.push(
                EditView { policy, line: (first + n) as usize, before: left, after: right },
            )
        }
    }
}

pub open spec fn longer(a: nat, b: nat) -> nat {
    if a <= b {
        b
    } else {
        a
    }
}

/// The edits that turn one text into the other: the shared start and end are
/// left out, and the lines between are compared one by one.
pub open spec fn synthesized(
    before: Seq<char>,
    after: Seq<char>,
    policy: Seq<char>,
) -> Seq<EditView> {
    let b = line_text::lines_in(before);
    let a = line_text::lines_in(after);
    let prefix = common_prefix(b, a);
    let suffix = common_suffix(b.skip(prefix as int), a.skip(prefix as int));
    let x = middle(b, prefix, suffix);
    let y = middle(a, prefix, suffix);
    block_edits(x, y, prefix as int, policy, longer(x.len(), y.len()) as int)
}

/// `sorted` with `e` behind all edits of the same or an earlier line.
pub open spec fn insert_by_line(sorted: Seq<EditView>, e: EditView) -> Seq<EditView>
    decreases sorted.len(),
{
    if sorted.len() == 0 || sorted.last().line <= e.line {
        sorted.push(e)
    } else {
        insert_by_line(sorted.drop_last(), e).push(sorted.last())
    }
}

/// The edits that name a line, in the order of their lines; those of one line
/// stay in their order.
pub open spec fn in_line_order(edits: Seq<EditView>) -> Seq<EditView>
    decreases edits.len(),
{
    if edits.len() == 0 {
        Seq::empty()
    } else {
        let rest = in_line_order(edits.drop_last());
        if edits.last().line > 0 {
            insert_by_line(rest, edits.last())
        } else {
            rest
        }
    }
}

/// One strict step: what is taken over up to the line of `e`, and the edit
/// itself. It fails where the edit lies behind what was taken over already,
/// beyond the end, or where the line is not the one that it expects.
pub open spec fn strict_step(
    lines: Seq<Seq<char>>,
    state: (int, Seq<char>),
    e: EditView,
) -> Option<(int, Seq<char>)> {
    let (src, out) = state;
    let at = e.line - 1;
    if at < src || at > lines.len() {
        None
    } else {
        let upto = out + line_text::concat(lines.subrange(src, at));
        if e.inserts() {
            Some((at, upto + e.after))
        } else if at >= lines.len() || lines[at] != e.before {
            None
        } else {
            Some((at + 1, upto + e.after))
        }
    }
}

/// The strict steps of the first `n` edits.
pub open spec fn strict_run(lines: Seq<Seq<char>>, edits: Seq<EditView>, n: int) -> Option<
    (int, Seq<char>),
>
    decreases n,
{
    if n <= 0 {
        Some((0int, Seq::<char>::empty()))
    } else {
        match strict_run(lines, edits, n - 1) {
            None => None,
            Some(state) => strict_step(lines, state, edits[n - 1]),
        }
    }
}

/// The text after all edits, where each fits.
pub open spec fn strict_text(before: Seq<char>, edits: Seq<EditView>) -> Option<Seq<char>> {
    let lines = line_text::lines_in(before);
    let order = in_line_order(edits);
    match strict_run(lines, order, order.len() as int) {
        None => None,
        Some((src, out)) => Some(out + line_text::concat(lines.skip(src))),
    }
}

/// Where a lenient run stands: the lines taken over, the text so far, and by
/// how much later edits are shifted.
pub ghost struct LenientState {
    pub src: int,
    pub out: Seq<char>,
    pub offset: int,
}

/// One lenient step: an edit that does not fit is passed over.
pub open spec fn lenient_step(
    lines: Seq<Seq<char>>,
    state: LenientState,
    e: EditView,
) -> LenientState {
    let at = e.line - 1 + state.offset;
    let last = if e.inserts() {
        lines.len() as int
    } else {
        lines.len() - 1
    };
    if at < 0 || at > last {
        state
    } else {
        let src = if state.src < at {
            at
        } else {
            state.src
        };
        let upto = state.out + line_text::concat(lines.subrange(state.src, src));
        if e.inserts() {
            LenientState { src, out: upto + e.after, offset: state.offset + 1 }
        } else if src < lines.len() && lines[src] == e.before {
            LenientState {
                src: src + 1,
                out: upto + e.after,
                offset: if e.deletes() {
                    state.offset - 1
                } else {
                    state.offset
                },
            }
        } else {
            LenientState { src, out: upto, offset: state.offset }
        }
    }
}

/// The lenient steps of the first `n` edits.
pub open spec fn lenient_run(lines: Seq<Seq<char>>, edits: Seq<EditView>, n: int) -> LenientState
    decreases n,
{
    if n <= 0 {
        LenientState { src: 0, out: Seq::empty(), offset: 0 }
    } else {
        lenient_step(lines, lenient_run(lines, edits, n - 1), edits[n - 1])
    }
}

/// The text after the edits that fit.
pub open spec fn lenient_text(before: Seq<char>, edits: Seq<EditView>) -> Seq<char> {
    let lines = line_text::lines_in(before);
    let order = in_line_order(edits);
    let end = lenient_run(lines, order, order.len() as int);
    end.out + line_text::concat(lines.skip(end.src))
}

/// The lines that the edits change.
pub open spec fn changed_lines(edits: Seq<EditView>) -> Set<usize> {
    Set::new(
        |line: usize|
            exists|k: int| 0 <= k < edits.len() && (#[trigger] edits[k]).changes() && edits[k].line
                == line,
    )
}

/// What one more edit adds to the changed lines.
pub proof fn lemma_changed_step(edits: Seq<EditView>, i: int)
    requires
        0 <= i < edits.len(),
    ensures
        changed_lines(edits.take(i + 1)) == if edits[i].changes() {
            changed_lines(edits.take(i)).insert(edits[i].line)
        } else {
            changed_lines(edits.take(i))
        },
{
    let head = edits.take(i);
    let next = edits.take(i + 1);
    let more = if edits[i].changes() {
        changed_lines(head).insert(edits[i].line)
    } else {
        changed_lines(head)
    };
    assert(next[i] == edits[i]);
    assert forall|line: usize| changed_lines(next).contains(line) <==> more.contains(line) by {
        if changed_lines(head).contains(line) {
            let k = choose|k: int|
                0 <= k < head.len() && (#[trigger] head[k]).changes() && head[k].line == line;
            assert(next[k] == head[k]);
        }
        if changed_lines(next).contains(line) {
            let k = choose|k: int|
                0 <= k < next.len() && (#[trigger] next[k]).changes() && next[k].line == line;
            if k < i {
                assert(head[k] == next[k]);
            }
        }
    }
    assert(changed_lines(next) =~= more);
}

proof fn lemma_prefix(b: Seq<Seq<char>>, a: Seq<Seq<char>>, p: int)
    requires
        0 <= p <= b.len(),
        p <= a.len(),
        forall|k: int| 0 <= k < p ==> #[trigger] b[k] == a[k],
        p < b.len() && p < a.len() ==> b[p] != a[p],
    ensures
        common_prefix(b, a) == p,
    decreases p,
{
    if p > 0 {
        assert(b[0] == a[0]);
        let x = b.drop_first();
        let y = a.drop_first();
        assert forall|k: int| 0 <= k < p - 1 implies #[trigger] x[k] == y[k] by {
            assert(b[k + 1] == a[k + 1]);
        }
        lemma_prefix(x, y, p - 1);
    }
}

proof fn lemma_suffix(b: Seq<Seq<char>>, a: Seq<Seq<char>>, s: int)
    requires
        0 <= s <= b.len(),
        s <= a.len(),
        forall|k: int| 0 <= k < s ==> #[trigger] b[b.len() - 1 - k] == a[a.len() - 1 - k],
        s < b.len() && s < a.len() ==> b[b.len() - 1 - s] != a[a.len() - 1 - s],
    ensures
        common_suffix(b, a) == s,
    decreases s,
{
    if s > 0 {
        assert(b[b.len() - 1 - 0] == a[a.len() - 1 - 0]);
        let x = b.drop_last();
        let y = a.drop_last();
        assert forall|k: int| 0 <= k < s - 1 implies #[trigger] x[x.len() - 1 - k] == y[y.len() - 1
            - k] by {
            assert(b[b.len() - 1 - (k + 1)] == a[a.len() - 1 - (k + 1)]);
        }
        lemma_suffix(x, y, s - 1);
    }
}

/// Compares two texts line by line. The edits rebuild the second text from the
/// first, where it has at most one line more; there are none exactly where the
/// texts are the same.
pub fn synthesize_line_edits(before: &str, after: &str, policy_name: &str) -> (r: Vec<Edit>)
    ensures
        model::edit_views(r@) == synthesized(before@, after@, policy_name@),
        line_text::lines_in(after@).len() <= line_text::lines_in(before@).len() + 1 ==> strict_text(
            before@,
            model::edit_views(r@),
        ) == Some(after@),
        r@.len() == 0 <==> before@ == after@,
        forall|i: int, j: int| 0 <= i < j < r@.len() ==> r@[i].line < r@[j].line,
        forall|k: int| 0 <= k < r@.len() ==> (#[trigger] r@[k])@.changes(),
{
    let before_lines = split_lines(before);
    let after_lines = split_lines(after);
    let ghost b = line_text::lines_in(before@);
    let ghost a = line_text::lines_in(after@);
    assert(b.len() == before_lines@.len() && a.len() == after_lines@.len());
    assert forall|k: int| 0 <= k < b.len() implies #[trigger] b[k] == before_lines@[k]@ by {
        assert(text::views(before_lines@)[k] == before_lines@[k]@);
    }
    assert forall|k: int| 0 <= k < a.len() implies #[trigger] a[k] == after_lines@[k]@ by {
        assert(text::views(after_lines@)[k] == after_lines@[k]@);
    }
    let mut prefix: usize = 0;
    while prefix < before_lines.len() && prefix < after_lines.len() && str_eq(
        before_lines[prefix].as_str(),
        after_lines[prefix].as_str(),
    )
        invariant
            b.len() == before_lines@.len(),
            a.len() == after_lines@.len(),
            forall|k: int| 0 <= k < b.len() ==> #[trigger] b[k] == before_lines@[k]@,
            forall|k: int| 0 <= k < a.len() ==> #[trigger] a[k] == after_lines@[k]@,
            prefix <= b.len(),
            prefix <= a.len(),
            forall|k: int| 0 <= k < prefix ==> #[trigger] b[k] == a[k],
        decreases b.len() - prefix,
    {
        assert(b[prefix as int] == a[prefix as int]);
        prefix += 1;
    }
    proof {
        if prefix < b.len() && prefix < a.len() {
            assert(b[prefix as int] != a[prefix as int]);
        }
        lemma_prefix(b, a, prefix as int);
    }
    let ghost bs = b.skip(prefix as int);
    let ghost aas = a.skip(prefix as int);
    let mut before_tail: usize = before_lines.len();
    let mut after_tail: usize = after_lines.len();
    while before_tail > prefix && after_tail > prefix && str_eq(
        before_lines[before_tail - 1].as_str(),
        after_lines[after_tail - 1].as_str(),
    )
        invariant
            b.len() == before_lines@.len(),
            a.len() == after_lines@.len(),
            forall|k: int| 0 <= k < b.len() ==> #[trigger] b[k] == before_lines@[k]@,
            forall|k: int| 0 <= k < a.len() ==> #[trigger] a[k] == after_lines@[k]@,
            bs == b.skip(prefix as int),
            aas == a.skip(prefix as int),
            prefix <= before_tail <= b.len(),
            prefix <= after_tail <= a.len(),
            b.len() - before_tail == a.len() - after_tail,
            forall|k: int|
                0 <= k < b.len() - before_tail ==> #[trigger] bs[bs.len() - 1 - k] == aas[aas.len()
                    - 1 - k],
        decreases before_tail,
    {
        proof {
            let k = b.len() - before_tail;
            assert(bs[bs.len() - 1 - k] == b[before_tail - 1]);
            assert(aas[aas.len() - 1 - k] == a[after_tail - 1]);
        }
        before_tail -= 1;
        after_tail -= 1;
    }
    let ghost suffix = (b.len() - before_tail) as nat;
    proof {
        if suffix < bs.len() && suffix < aas.len() {
            assert(bs[bs.len() - 1 - suffix] == b[before_tail - 1]);
            assert(aas[aas.len() - 1 - suffix] == a[after_tail - 1]);
        }
        lemma_suffix(bs, aas, suffix as int);
    }
    let ghost x = middle(b, prefix as nat, suffix);
    let ghost y = middle(a, prefix as nat, suffix);
    let before_count: usize = before_tail - prefix;
    let after_count: usize = after_tail - prefix;
    let count: usize = if before_count <= after_count {
        after_count
    } else {
        before_count
    };
    let mut edits: Vec<Edit> = Vec::new();
    let mut index: usize = 0;
    assert(model::edit_views(edits@) =~= Seq::empty());
    while index < count
        invariant
            b.len() == before_lines@.len(),
            a.len() == after_lines@.len(),
            forall|k: int| 0 <= k < b.len() ==> #[trigger] b[k] == before_lines@[k]@,
            forall|k: int| 0 <= k < a.len() ==> #[trigger] a[k] == after_lines@[k]@,
            prefix + before_count == before_tail <= b.len(),
            prefix + after_count == after_tail <= a.len(),
            x == b.subrange(prefix as int, before_tail as int),
            y == a.subrange(prefix as int, after_tail as int),
            count == longer(before_count as nat, after_count as nat),
            index <= count,
            model::edit_views(edits@) == block_edits(
                x,
                y,
                prefix as int,
                policy_name@,
                index as int,
            ),
        decreases count - index,
    {
        let left = if index < before_count {
            before_lines[prefix + index].as_str()
        } else {
            ""
        };
        let right = if index < after_count {
            after_lines[prefix + index].as_str()
        } else {
            ""
        };
        proof {
            reveal_strlit("");
            assert(""@ =~= Seq::<char>::empty());
            if index < before_count {
                assert(x[index as int] == b[prefix + index]);
            }
            if index < after_count {
                assert(y[index as int] == a[prefix + index]);
            }
            assert(left@ == line_at(x, index as int));
            assert(right@ == line_at(y, index as int));
        }
        if !str_eq(left, right) {
            let ghost was = model::edit_views(edits@);
            let edit = Edit {
                policy: policy_name.to_owned(),
                line: prefix + index + 1,
                before: left.to_owned(),
                after: right.to_owned(),
            };
            edits.push(edit);
            assert(model::edit_views(edits@) =~= was.push(edit@));
        }
        index += 1;
    }
    proof {
        let views = model::edit_views(edits@);
        assert(views.len() == edits@.len());
        if line_text::lines_in(after@).len() <= line_text::lines_in(before@).len() + 1 {
            lemma_synthesized_round_trip(before@, after@, policy_name@);
        }
        lemma_no_edits_means_equal(before@, after@, policy_name@);
        lemma_synthesized_in_order(before@, after@, policy_name@);
        assert forall|i: int, j: int| 0 <= i < j < edits@.len() implies edits@[i].line
            < edits@[j].line by {
            assert(views[i].line < views[j].line);
        }
        assert forall|k: int| 0 <= k < edits@.len() implies (#[trigger] edits@[k])@.changes() by {
            assert(views[k].changes());
        }
    }
    edits
}

/// The edits that name a line, in the order of their lines.
fn order_edits(edits: &[Edit]) -> (r: Vec<Edit>)
    ensures
        model::edit_views(r@) == in_line_order(model::edit_views(edits@)),
{
    let ghost all = model::edit_views(edits@);
    let mut r: Vec<Edit> = Vec::new();
    let mut i: usize = 0;
    assert(model::edit_views(r@) =~= Seq::empty());
    while i < edits.len()
        invariant
            all == model::edit_views(edits@),
            i <= edits@.len(),
            model::edit_views(r@) == in_line_order(all.take(i as int)),
        decreases edits@.len() - i,
    {
        let ghost was = model::edit_views(r@);
        let ghost next = all.take(i + 1);
        assert(next.drop_last() =~= all.take(i as int));
        assert(next.last() == edits@[i as int]@);
        if edits[i].line > 0 {
            let mut pos: usize = r.len();
            proof {
                assert(was.take(was.len() as int) =~= was);
                assert(was.skip(was.len() as int) =~= Seq::empty());
                let full = insert_by_line(was, edits@[i as int]@);
                assert(full + Seq::<EditView>::empty() =~= full);
            }
            while pos > 0 && r[pos - 1].line > edits[i].line
                invariant
                    was == model::edit_views(r@),
                    i < edits@.len(),
                    pos <= r@.len(),
                    insert_by_line(was, edits@[i as int]@) == insert_by_line(
                        was.take(pos as int),
                        edits@[i as int]@,
                    ) + was.skip(pos as int),
                decreases pos,
            {
                proof {
                    let head = was.take(pos as int);
                    assert(head.last() == r@[pos - 1]@);
                    assert(head.drop_last() =~= was.take(pos - 1));
                    assert(was.skip(pos - 1) =~= seq![head.last()] + was.skip(pos as int));
                    assert(insert_by_line(head, edits@[i as int]@) + was.skip(pos as int)
                        =~= insert_by_line(was.take(pos - 1), edits@[i as int]@) + was.skip(
                        pos - 1,
                    ));
                }
                pos -= 1;
            }
            proof {
                let head = was.take(pos as int);
                if pos > 0 {
                    assert(head.last() == r@[pos - 1]@);
                }
                assert(insert_by_line(head, edits@[i as int]@) == head.push(edits@[i as int]@));
            }
            let copy = edits[i].clone();
            r.insert(pos, copy);
            assert(model::edit_views(r@) =~= was.take(pos as int).push(edits@[i as int]@)
                + was.skip(pos as int));
        }
        i += 1;
    }
    assert(all.take(all.len() as int) =~= all);
    r
}

/// Appends lines `from..to` to a text.
fn take_over(out: &mut String, lines: &Vec<String>, from: usize, to: usize)
    requires
        from <= to <= lines@.len(),
    ensures
        final(out)@ == old(out)@ + line_text::concat(
            text::views(lines@).subrange(from as int, to as int),
        ),
{
    let ghost all = text::views(lines@);
    let ghost start = out@;
    let mut i: usize = from;
    assert(all.subrange(from as int, from as int) =~= Seq::empty());
    assert(start + Seq::<char>::empty() =~= start);
    while i < to
        invariant
            all == text::views(lines@),
            from <= i <= to <= lines@.len(),
            out@ == start + line_text::concat(all.subrange(from as int, i as int)),
        decreases to - i,
    {
        let ghost was = out@;
        out.append(lines[i].as_str());
        i += 1;
        proof {
            let now = all.subrange(from as int, i as int);
            assert(now.drop_last() =~= all.subrange(from as int, i - 1));
            assert(now.last() == lines@[i - 1]@);
            assert(out@ =~= start + line_text::concat(now));
        }
    }
}

/// Applies edits that must each find the line they expect.
pub fn apply_synthesized_edits(before_text: &str, edits: &[Edit]) -> (r: Option<String>)
    ensures
        match strict_text(before_text@, model::edit_views(edits@)) {
            Some(after) => r matches Some(done) && done@ == after,
            None => r is None,
        },
{
    let lines = split_lines(before_text);
    let ordered = order_edits(edits);
    let ghost all = line_text::lines_in(before_text@);
    let ghost order = in_line_order(model::edit_views(edits@));
    let mut result = String::new();
    let mut src: usize = 0;
    let mut i: usize = 0;
    while i < ordered.len()
        invariant
            all == line_text::lines_in(before_text@),
            all == text::views(lines@),
            order == model::edit_views(ordered@),
            order == in_line_order(model::edit_views(edits@)),
            i <= ordered@.len(),
            src <= lines@.len(),
            strict_run(all, order, i as int) == Some((src as int, result@)),
        decreases ordered@.len() - i,
    {
        let edit = &ordered[i];
        proof {
            assert(order[i as int] == edit@);
            lemma_ordered_named(model::edit_views(edits@));
            lemma_strict_none(all, order, i + 1, order.len() as int);
        }
        let at: usize = edit.line - 1;
        if at < src || at > lines.len() {
            return None;
        }
        take_over(&mut result, &lines, src, at);
        if edit.before.as_str().is_empty() && !edit.after.as_str().is_empty() {
            result.append(edit.after.as_str());
            src = at;
        } else {
            if at >= lines.len() {
                return None;
            }
            assert(all[at as int] == lines@[at as int]@);
            if !str_eq(lines[at].as_str(), edit.before.as_str()) {
                return None;
            }
            result.append(edit.after.as_str());
            src = at + 1;
        }
        i += 1;
    }
    take_over(&mut result, &lines, src, lines.len());
    assert(all.subrange(src as int, all.len() as int) =~= all.skip(src as int));
    Some(result)
}

proof fn lemma_strict_none(lines: Seq<Seq<char>>, edits: Seq<EditView>, m: int, n: int)
    requires
        0 <= m <= n,
    ensures
        strict_run(lines, edits, m) is None ==> strict_run(lines, edits, n) is None,
    decreases n - m,
{
    if m < n {
        lemma_strict_none(lines, edits, m, n - 1);
    }
}

proof fn lemma_insert_named(sorted: Seq<EditView>, e: EditView)
    requires
        e.line > 0,
        forall|k: int| 0 <= k < sorted.len() ==> (#[trigger] sorted[k]).line > 0,
    ensures
        forall|k: int|
            0 <= k < insert_by_line(sorted, e).len() ==> (#[trigger] insert_by_line(
                sorted,
                e,
            )[k]).line > 0,
    decreases sorted.len(),
{
    if !(sorted.len() == 0 || sorted.last().line <= e.line) {
        lemma_insert_named(sorted.drop_last(), e);
        let head = insert_by_line(sorted.drop_last(), e);
        assert forall|k: int| 0 <= k < head.push(sorted.last()).len() implies (
        #[trigger] head.push(sorted.last())[k]).line > 0 by {
            if k < head.len() {
                assert(head[k].line > 0);
            } else {
                assert(sorted[sorted.len() - 1].line > 0);
            }
        }
    } else {
        assert forall|k: int| 0 <= k < sorted.push(e).len() implies (#[trigger] sorted.push(
            e,
        )[k]).line > 0 by {
            if k < sorted.len() {
                assert(sorted[k].line > 0);
            }
        }
    }
}

proof fn lemma_ordered_named(edits: Seq<EditView>)
    ensures
        forall|k: int|
            0 <= k < in_line_order(edits).len() ==> (#[trigger] in_line_order(edits)[k]).line > 0,
    decreases edits.len(),
{
    if edits.len() > 0 {
        lemma_ordered_named(edits.drop_last());
        if edits.last().line > 0 {
            lemma_insert_named(in_line_order(edits.drop_last()), edits.last());
        }
    }
}

proof fn lemma_lenient_bounds(lines: Seq<Seq<char>>, edits: Seq<EditView>, n: int)
    requires
        0 <= n <= edits.len(),
    ensures
        0 <= lenient_run(lines, edits, n).src <= lines.len(),
        -n <= lenient_run(lines, edits, n).offset <= n,
    decreases n,
{
    if n > 0 {
        lemma_lenient_bounds(lines, edits, n - 1);
    }
}

/// Applies the edits that fit, and passes over the others.
pub fn apply_edits_lenient(before_text: &str, edits: &[Edit]) -> (r: String)
    ensures
        r@ == lenient_text(before_text@, model::edit_views(edits@)),
{
    let lines = split_lines(before_text);
    let ordered = order_edits(edits);
    let ghost all = line_text::lines_in(before_text@);
    let ghost order = in_line_order(model::edit_views(edits@));
    let mut result = String::new();
    let mut src: usize = 0;
    let mut offset: i128 = 0;
    let mut i: usize = 0;
    let ghost mut state = lenient_run(all, order, 0);
    while i < ordered.len()
        invariant
            all == line_text::lines_in(before_text@),
            all == text::views(lines@),
            order == model::edit_views(ordered@),
            order == in_line_order(model::edit_views(edits@)),
            i <= ordered@.len(),
            src <= lines@.len(),
            -i <= offset <= i,
            state == lenient_run(all, order, i as int),
            state.src == src,
            state.out == result@,
            state.offset == offset,
        decreases ordered@.len() - i,
    {
        let edit = &ordered[i];
        proof {
            assert(order[i as int] == edit@);
            lemma_ordered_named(model::edit_views(edits@));
            lemma_lenient_bounds(all, order, i + 1);
            state = lenient_run(all, order, i + 1);
        }
        let at: i128 = (edit.line - 1) as i128 + offset;
        let inserts = edit.before.as_str().is_empty() && !edit.after.as_str().is_empty();
        let deletes = !edit.before.as_str().is_empty() && edit.after.as_str().is_empty();
        let last: i128 = if inserts {
            lines.len() as i128
        } else {
            lines.len() as i128 - 1
        };
        if at >= 0 && at <= last {
            let index: usize = at as usize;
            if src < index {
                take_over(&mut result, &lines, src, index);
                src = index;
            } else {
                assert(all.subrange(src as int, src as int) =~= Seq::empty());
                assert(result@ + Seq::<char>::empty() =~= result@);
            }
            if inserts {
                result.append(edit.after.as_str());
                offset = offset + 1;
            } else if src < lines.len() {
                assert(all[src as int] == lines@[src as int]@);
                if str_eq(lines[src].as_str(), edit.before.as_str()) {
                    result.append(edit.after.as_str());
                    src += 1;
                    if deletes {
                        offset = offset - 1;
                    }
                }
            }
        }
        i += 1;
    }
    take_over(&mut result, &lines, src, lines.len());
    assert(all.subrange(src as int, all.len() as int) =~= all.skip(src as int));
    result
}

/// The lines that the edits change.
pub fn edit_lines(edits: &[Edit]) -> (r: BTreeSet<usize>)
    ensures
        r@ == changed_lines(model::edit_views(edits@)),
{
    let ghost all = model::edit_views(edits@);
    let mut r: BTreeSet<usize> = BTreeSet::new();
    let mut i: usize = 0;
    while i < edits.len()
        invariant
            all == model::edit_views(edits@),
            i <= edits@.len(),
            r@ == changed_lines(all.take(i as int)),
        decreases edits@.len() - i,
    {
        assert(all[i as int] == edits@[i as int]@);
        if edits[i].is_change() {
            r.insert(edits[i].line);
        }
        proof {
            lemma_changed_step(all, i as int);
        }
        i += 1;
    }
    assert(all.take(all.len() as int) =~= all);
    r
}

/// Whether two texts differ in their number of lines.
pub fn has_nonlocal_change(before_text: &str, after_text: &str) -> (r: bool)
    ensures
        r == (line_text::lines_in(before_text@).len() != line_text::lines_in(after_text@).len()),
{
    let before = split_lines(before_text);
    let after = split_lines(after_text);
    assert(text::views(before@).len() == before@.len());
    assert(text::views(after@).len() == after@.len());
    before.len() != after.len()
}

/// The guard's message when a text changed and no edit accounts for it.
pub open spec fn untracked_delta_warning() -> Seq<char> {
    "pipeline guard: reverted untracked text delta because no final edits survived"@
}

/// Gives the text back as it was where it changed and no edit is left.
pub fn stabilize_output_text(
    input_text: &str,
    output_text: &str,
    edits: &[Edit],
    warnings: &mut Vec<String>,
) -> (r: String)
    ensures
        edits@.len() == 0 ==> r@ == input_text@,
        edits@.len() > 0 ==> r@ == output_text@,
        text::views(final(warnings)@) == if edits@.len() == 0 && output_text@ != input_text@ {
            text::views(old(warnings)@).push(untracked_delta_warning())
        } else {
            text::views(old(warnings)@)
        },
{
    if edits.len() == 0 && !str_eq(output_text, input_text) {
        model::warn(
            warnings,
            "pipeline guard: reverted untracked text delta because no final edits survived"
                .to_owned(),
        );
        return input_text.to_owned();
    }
    output_text.to_owned()
}

/// The guard's message when edits are recorded for a text that did not change.
pub open spec fn stale_edits_warning(policy: Seq<char>) -> Seq<char> {
    "policy output guard: cleared stale edit records for '"@ + policy + "'"@
}

/// The guard's message when the recorded edits do not cover the change.
pub open spec fn coverage_warning(policy: Seq<char>, declared: nat, actual: nat) -> Seq<char> {
    "policy output guard: normalized edit coverage for '"@ + policy + "' (declared_lines="@
        + text::decimal(declared) + ", actual_lines="@ + text::decimal(actual) + ")"@
}

/// A result whose recorded edits account for its text: edits of a text that
/// did not change are cleared; edits that produce the text are kept; otherwise
/// they stay only if they name the lines that changed, and are replaced by the
/// line edits if not.
pub open spec fn covered(policy: Seq<char>, before: Seq<char>, r: ResultView) -> ResultView {
    let actual = synthesized(before, r.text, policy);
    let declared_lines = changed_lines(r.edits);
    let actual_lines = changed_lines(actual);
    if !r.changed && r.text.len() == 0 {
        r
    } else if r.text == before {
        if r.edits.len() == 0 {
            r
        } else {
            ResultView {
                edits: Seq::empty(),
                warnings: r.warnings.push(stale_edits_warning(policy)),
                ..r
            }
        }
    } else if r.edits.len() > 0 && strict_text(before, r.edits) == Some(r.text) {
        r
    } else if actual.len() == 0 {
        r
    } else if r.edits.len() == 0 || !actual_lines.subset_of(declared_lines) || declared_lines.len()
        != actual_lines.len() {
        ResultView {
            edits: actual,
            warnings: r.warnings.push(
                coverage_warning(policy, declared_lines.len(), actual_lines.len()),
            ),
            ..r
        }
    } else {
        r
    }
}

/// Whether each line of one set is in the other.
fn all_within(inner: &BTreeSet<usize>, outer: &BTreeSet<usize>) -> (r: bool)
    ensures
        r == inner@.subset_of(outer@),
{
    let list = lines::lines_of(inner);
    let mut i: usize = 0;
    while i < list.len()
        invariant
            i <= list@.len(),
            list@.to_set() == inner@,
            forall|k: int| 0 <= k < i ==> outer@.contains(#[trigger] list@[k]),
        decreases list@.len() - i,
    {
        if !outer.contains(&list[i]) {
            assert(list@.to_set().contains(list@[i as int]));
            return false;
        }
        i += 1;
    }
    proof {
        assert forall|x: usize| inner@.contains(x) implies outer@.contains(x) by {
            assert(list@.to_set().contains(x));
            let k = choose|k: int| 0 <= k < list@.len() && list@[k] == x;
            assert(outer@.contains(list@[k]));
        }
    }
    true
}

/// Makes the recorded edits of a result account for its text.
pub fn normalize_edit_coverage(
    policy_name: &str,
    before_text: &str,
    result: PolicyResult,
) -> (r: PolicyResult)
    ensures
        r@ == covered(policy_name@, before_text@, result@),
{
    let mut result = result;
    let ghost start = result@;
    assert(start.edits.len() == result.edits@.len());
    if !result.changed && result.text.as_str().is_empty() {
        return result;
    }
    if str_eq(result.text.as_str(), before_text) {
        if result.edits.len() > 0 {
            result.edits = Vec::new();
            let mut message = "policy output guard: cleared stale edit records for '".to_owned();
            message.append(policy_name);
            message.append("'");
            model::warn(&mut result.warnings, message);
            assert(result@ =~= covered(policy_name@, before_text@, start));
        }
        return result;
    }
    if result.edits.len() > 0 {
        match apply_synthesized_edits(before_text, result.edits.as_slice()) {
            Some(applied) => {
                if str_eq(applied.as_str(), result.text.as_str()) {
                    return result;
                }
            },
            None => {},
        }
    }
    let synthesized_edits = synthesize_line_edits(
        before_text,
        result.text.as_str(),
        policy_name,
    );
    assert(model::edit_views(synthesized_edits@).len() == synthesized_edits@.len());
    if synthesized_edits.len() == 0 {
        return result;
    }
    let declared_lines = edit_lines(result.edits.as_slice());
    let actual_lines = edit_lines(synthesized_edits.as_slice());
    if result.edits.len() == 0 || !all_within(&actual_lines, &declared_lines)
        || declared_lines.len() != actual_lines.len() {
        let mut message = "policy output guard: normalized edit coverage for '".to_owned();
        message.append(policy_name);
        message.append("' (declared_lines=");
        message.append(text::decimal_of(declared_lines.len()).as_str());
        message.append(", actual_lines=");
        message.append(text::decimal_of(actual_lines.len()).as_str());
        message.append(")");
        model::warn(&mut result.warnings, message);
        result.edits = synthesized_edits;
        assert(result@ =~= covered(policy_name@, before_text@, start));
    }
    result
}

proof fn lemma_sorted_in_order(edits: Seq<EditView>)
    requires
        forall|k: int| 0 <= k < edits.len() ==> (#[trigger] edits[k]).line > 0,
        forall|i: int, j: int| 0 <= i < j < edits.len() ==> edits[i].line <= edits[j].line,
    ensures
        in_line_order(edits) == edits,
    decreases edits.len(),
{
    if edits.len() > 0 {
        let head = edits.drop_last();
        lemma_sorted_in_order(head);
        assert(edits.last() == edits[edits.len() - 1]);
        if head.len() > 0 {
            assert(edits[head.len() - 1].line <= edits[edits.len() - 1].line);
        }
        assert(head.push(edits.last()) =~= edits);
    } else {
        assert(in_line_order(edits) =~= edits);
    }
}

proof fn lemma_block_lines(
    b: Seq<Seq<char>>,
    a: Seq<Seq<char>>,
    first: int,
    policy: Seq<char>,
    n: int,
)
    requires
        0 <= first,
        0 <= n,
        first + n <= usize::MAX,
    ensures
        ({
            let edits = block_edits(b, a, first, policy, n);
            &&& forall|k: int|
                0 <= k < edits.len() ==> 0 < (#[trigger] edits[k]).line <= first + n
            &&& forall|i: int, j: int| 0 <= i < j < edits.len() ==> edits[i].line < edits[j].line
        }),
    decreases n,
{
    if n > 0 {
        lemma_block_lines(b, a, first, policy, n - 1);
        let rest = block_edits(b, a, first, policy, n - 1);
        let edits = block_edits(b, a, first, policy, n);
        assert forall|k: int| 0 <= k < edits.len() implies 0 < (#[trigger] edits[k]).line <= first
            + n by {
            if k < rest.len() {
                assert(edits[k] == rest[k]);
            }
        }
        assert forall|i: int, j: int| 0 <= i < j < edits.len() implies edits[i].line
            < edits[j].line by {
            assert(edits[i] == rest[i]);
            if j < rest.len() {
                assert(edits[j] == rest[j]);
            }
        }
    }
}

proof fn lemma_strict_run_prefix(
    lines: Seq<Seq<char>>,
    e: Seq<EditView>,
    f: Seq<EditView>,
    n: int,
)
    requires
        0 <= n <= e.len(),
        n <= f.len(),
        forall|k: int| 0 <= k < n ==> #[trigger] e[k] == f[k],
    ensures
        strict_run(lines, e, n) == strict_run(lines, f, n),
    decreases n,
{
    if n > 0 {
        assert(e[n - 1] == f[n - 1]);
        lemma_strict_run_prefix(lines, e, f, n - 1);
    }
}

pub open spec fn smaller(a: int, b: int) -> int {
    if a <= b {
        a
    } else {
        b
    }
}

proof fn lemma_concat_step(lines: Seq<Seq<char>>, from: int, to: int)
    requires
        0 <= from <= to < lines.len(),
    ensures
        line_text::concat(lines.subrange(from, to + 1)) == line_text::concat(
            lines.subrange(from, to),
        ) + lines[to],
{
    let now = lines.subrange(from, to + 1);
    assert(now.drop_last() =~= lines.subrange(from, to));
    assert(now.last() == lines[to]);
}

/// After the edits of the first `n` lines of the block, what was written and
/// what is still to be taken over make up the new lines so far.
proof fn lemma_block_run(
    b: Seq<Seq<char>>,
    a: Seq<Seq<char>>,
    prefix: nat,
    suffix: nat,
    policy: Seq<char>,
    n: int,
) -> (state: (int, Seq<char>))
    requires
        prefix + suffix <= b.len(),
        prefix + suffix <= a.len(),
        a.len() <= b.len() + 1,
        b.len() <= usize::MAX,
        a.len() <= usize::MAX,
        forall|k: int| 0 <= k < prefix ==> #[trigger] b[k] == a[k],
        forall|k: int| 0 <= k < b.len() ==> (#[trigger] b[k]).len() > 0,
        forall|k: int| 0 <= k < a.len() ==> (#[trigger] a[k]).len() > 0,
        0 <= n <= longer(
            (b.len() - prefix - suffix) as nat,
            (a.len() - prefix - suffix) as nat,
        ),
    ensures
        ({
            let x = middle(b, prefix, suffix);
            let y = middle(a, prefix, suffix);
            let edits = block_edits(x, y, prefix as int, policy, n);
            let reached = prefix + smaller(n, x.len() as int);
            &&& strict_run(b, edits, edits.len() as int) == Some(state)
            &&& 0 <= state.0 <= reached
            &&& state.1 + line_text::concat(b.subrange(state.0, reached)) == line_text::concat(
                a.take(prefix + smaller(n, y.len() as int)),
            )
        }),
    decreases n,
{
    let x = middle(b, prefix, suffix);
    let y = middle(a, prefix, suffix);
    let edits = block_edits(x, y, prefix as int, policy, n);
    if n == 0 {
        assert(b.subrange(0, prefix as int) =~= a.take(prefix as int));
        let none = Seq::<char>::empty();
        assert(none + line_text::concat(b.subrange(0, prefix as int)) =~= line_text::concat(
            a.take(prefix as int),
        ));
        (0, none)
    } else {
        let before = lemma_block_run(b, a, prefix, suffix, policy, n - 1);
        let rest = block_edits(x, y, prefix as int, policy, n - 1);
        let left = line_at(x, n - 1);
        let right = line_at(y, n - 1);
        let src = before.0;
        let out = before.1;
        let at = prefix + n - 1;
        let was = prefix + smaller(n - 1, x.len() as int);
        let had = prefix + smaller(n - 1, y.len() as int);
        if n - 1 < x.len() {
            assert(x[n - 1] == b[at]);
            lemma_concat_step(b, src, at);
        }
        if n - 1 < y.len() {
            assert(y[n - 1] == a[at]);
            lemma_concat_step(a, 0, at);
            assert(a.subrange(0, at) =~= a.take(at));
            assert(a.subrange(0, at + 1) =~= a.take(at + 1));
        }
        if left == right {
            // Lines are never empty, so both blocks reach this far.
            assert(n - 1 < x.len() && n - 1 < y.len());
            assert(out + line_text::concat(b.subrange(src, at + 1)) =~= (out + line_text::concat(
                b.subrange(src, at),
            )) + b[at]);
            before
        } else {
            let e = EditView {
                policy,
                line: (prefix + n) as usize,
                before: left,
                after: right,
            };
            assert(edits == rest.push(e));
            lemma_strict_run_prefix(b, edits, rest, rest.len() as int);
            assert(strict_run(b, edits, edits.len() as int) == strict_step(b, before, e));
            let upto = out + line_text::concat(b.subrange(src, at));
            let next = if n - 1 < x.len() {
                at + 1
            } else {
                at
            };
            if n - 1 >= x.len() {
                assert(n - 1 == x.len());
                assert(e.inserts());
            }
            let state = (next, upto + right);
            let reached = prefix + smaller(n, x.len() as int);
            assert(next == reached);
            assert(b.subrange(next, reached) =~= Seq::empty());
            assert(state.1 + line_text::concat(b.subrange(next, reached)) =~= state.1);
            if n - 1 >= y.len() {
                assert(right.len() == 0);
                assert(state.1 =~= upto);
            }
            state
        }
    }
}

proof fn lemma_common_prefix(b: Seq<Seq<char>>, a: Seq<Seq<char>>)
    ensures
        common_prefix(b, a) <= b.len(),
        common_prefix(b, a) <= a.len(),
        forall|k: int| 0 <= k < common_prefix(b, a) ==> #[trigger] b[k] == a[k],
    decreases b.len(),
{
    if b.len() > 0 && a.len() > 0 && b[0] == a[0] {
        let x = b.drop_first();
        let y = a.drop_first();
        lemma_common_prefix(x, y);
        assert forall|k: int| 0 <= k < common_prefix(b, a) implies #[trigger] b[k] == a[k] by {
            if k > 0 {
                assert(x[k - 1] == y[k - 1]);
            }
        }
    }
}

proof fn lemma_common_suffix(b: Seq<Seq<char>>, a: Seq<Seq<char>>)
    ensures
        common_suffix(b, a) <= b.len(),
        common_suffix(b, a) <= a.len(),
        b.skip(b.len() - common_suffix(b, a)) == a.skip(a.len() - common_suffix(b, a)),
    decreases b.len(),
{
    if b.len() > 0 && a.len() > 0 && b.last() == a.last() {
        let x = b.drop_last();
        let y = a.drop_last();
        lemma_common_suffix(x, y);
        let n = common_suffix(x, y);
        assert(b.skip(b.len() - n - 1) =~= x.skip(x.len() - n).push(b.last()));
        assert(a.skip(a.len() - n - 1) =~= y.skip(y.len() - n).push(a.last()));
    } else {
        assert(b.skip(b.len() as int) =~= a.skip(a.len() as int));
    }
}

/// Applying the line edits between two texts to the first gives the second,
/// where the second has at most one line more. (Further lines that are only
/// inserted name lines of the new text, which a strict run reads as lines of
/// the old one.)
pub proof fn lemma_synthesized_round_trip(
    before: Seq<char>,
    after: Seq<char>,
    policy: Seq<char>,
)
    requires
        line_text::lines_in(after).len() <= line_text::lines_in(before).len() + 1,
        line_text::lines_in(before).len() <= usize::MAX,
        line_text::lines_in(after).len() <= usize::MAX,
    ensures
        strict_text(before, synthesized(before, after, policy)) == Some(after),
{
    let b = line_text::lines_in(before);
    let a = line_text::lines_in(after);
    let prefix = common_prefix(b, a);
    lemma_common_prefix(b, a);
    let bs = b.skip(prefix as int);
    let aas = a.skip(prefix as int);
    let suffix = common_suffix(bs, aas);
    lemma_common_suffix(bs, aas);
    line_text::lemma_lines_nonempty(before);
    line_text::lemma_lines_nonempty(after);
    let x = middle(b, prefix, suffix);
    let y = middle(a, prefix, suffix);
    let n = longer(x.len(), y.len()) as int;
    let state = lemma_block_run(b, a, prefix, suffix, policy, n);
    let edits = synthesized(before, after, policy);
    lemma_block_lines(x, y, prefix as int, policy, n);
    lemma_sorted_in_order(edits);
    let bt = b.len() - suffix;
    let at = a.len() - suffix;
    assert(b.skip(bt) =~= bs.skip(bs.len() - suffix));
    assert(a.skip(at) =~= aas.skip(aas.len() - suffix));
    lemma_run_end(b, a, state, bt, at);
    line_text::lemma_lines_concat(after);
}

proof fn lemma_run_end(
    b: Seq<Seq<char>>,
    a: Seq<Seq<char>>,
    state: (int, Seq<char>),
    bt: int,
    at: int,
)
    requires
        0 <= state.0 <= bt <= b.len(),
        0 <= at <= a.len(),
        b.skip(bt) == a.skip(at),
        state.1 + line_text::concat(b.subrange(state.0, bt)) == line_text::concat(a.take(at)),
    ensures
        state.1 + line_text::concat(b.skip(state.0)) == line_text::concat(a),
{
    assert(b.skip(state.0) =~= b.subrange(state.0, bt) + b.skip(bt));
    line_text::lemma_concat_add(b.subrange(state.0, bt), b.skip(bt));
    assert(a =~= a.take(at) + a.skip(at));
    line_text::lemma_concat_add(a.take(at), a.skip(at));
    assert(state.1 + line_text::concat(b.skip(state.0)) =~= (state.1 + line_text::concat(
        b.subrange(state.0, bt),
    )) + line_text::concat(b.skip(bt)));
}

proof fn lemma_block_differs(
    b: Seq<Seq<char>>,
    a: Seq<Seq<char>>,
    first: int,
    policy: Seq<char>,
    n: int,
)
    ensures
        forall|k: int|
            0 <= k < block_edits(b, a, first, policy, n).len() ==> (#[trigger] block_edits(
                b,
                a,
                first,
                policy,
                n,
            )[k]).before != block_edits(b, a, first, policy, n)[k].after,
    decreases n,
{
    if n > 0 {
        lemma_block_differs(b, a, first, policy, n - 1);
        let rest = block_edits(b, a, first, policy, n - 1);
        let edits = block_edits(b, a, first, policy, n);
        assert forall|k: int| 0 <= k < edits.len() implies (#[trigger] edits[k]).before
            != edits[k].after by {
            if k < rest.len() {
                assert(edits[k] == rest[k]);
            }
        }
    }
}

/// Between two texts each line is edited once, in the order of the lines, and
/// each edit changes its line.
pub proof fn lemma_synthesized_in_order(before: Seq<char>, after: Seq<char>, policy: Seq<char>)
    requires
        line_text::lines_in(before).len() <= usize::MAX,
        line_text::lines_in(after).len() <= usize::MAX,
    ensures
        ({
            let edits = synthesized(before, after, policy);
            &&& forall|i: int, j: int| 0 <= i < j < edits.len() ==> edits[i].line < edits[j].line
            &&& forall|k: int| 0 <= k < edits.len() ==> (#[trigger] edits[k]).changes()
        }),
{
    let b = line_text::lines_in(before);
    let a = line_text::lines_in(after);
    let prefix = common_prefix(b, a);
    lemma_common_prefix(b, a);
    let bs = b.skip(prefix as int);
    let aas = a.skip(prefix as int);
    let suffix = common_suffix(bs, aas);
    lemma_common_suffix(bs, aas);
    let x = middle(b, prefix, suffix);
    let y = middle(a, prefix, suffix);
    let n = longer(x.len(), y.len()) as int;
    lemma_block_lines(x, y, prefix as int, policy, n);
    lemma_block_differs(x, y, prefix as int, policy, n);
}

/// Where nothing changed there is no edit, and where there is no edit nothing
/// changed.
pub proof fn lemma_no_edits_means_equal(before: Seq<char>, after: Seq<char>, policy: Seq<char>)
    ensures
        synthesized(before, after, policy).len() == 0 <==> before == after,
{
    let b = line_text::lines_in(before);
    let a = line_text::lines_in(after);
    let prefix = common_prefix(b, a);
    lemma_common_prefix(b, a);
    let bs = b.skip(prefix as int);
    let aas = a.skip(prefix as int);
    let suffix = common_suffix(bs, aas);
    lemma_common_suffix(bs, aas);
    line_text::lemma_lines_nonempty(before);
    line_text::lemma_lines_nonempty(after);
    let x = middle(b, prefix, suffix);
    let y = middle(a, prefix, suffix);
    let n = longer(x.len(), y.len()) as int;
    if before == after {
        lemma_prefix(b, a, b.len() as int);
    } else if block_edits(x, y, prefix as int, policy, n).len() == 0 {
        lemma_block_equal(x, y, prefix as int, policy, n);
        assert forall|k: int| 0 <= k < x.len() implies (#[trigger] x[k]).len() > 0 by {
            assert(x[k] == b[k + prefix]);
        }
        assert forall|k: int| 0 <= k < y.len() implies (#[trigger] y[k]).len() > 0 by {
            assert(y[k] == a[k + prefix]);
        }
        assert(x.len() == y.len()) by {
            if x.len() < y.len() {
                assert(line_at(x, x.len() as int) == line_at(y, x.len() as int));
            } else if y.len() < x.len() {
                assert(line_at(x, y.len() as int) == line_at(y, y.len() as int));
            }
        }
        assert(x =~= y) by {
            assert forall|k: int| 0 <= k < x.len() implies x[k] == y[k] by {
                assert(line_at(x, k) == line_at(y, k));
            }
        }
        let bt = b.len() - suffix;
        let at = a.len() - suffix;
        assert(b.skip(bt) =~= bs.skip(bs.len() - suffix));
        assert(a.skip(at) =~= aas.skip(aas.len() - suffix));
        assert(b =~= b.take(prefix as int) + x + b.skip(bt));
        assert(a =~= a.take(prefix as int) + y + a.skip(at));
        assert(b.take(prefix as int) =~= a.take(prefix as int));
        line_text::lemma_lines_injective(before, after);
    }
}

proof fn lemma_block_equal(
    b: Seq<Seq<char>>,
    a: Seq<Seq<char>>,
    first: int,
    policy: Seq<char>,
    n: int,
)
    requires
        block_edits(b, a, first, policy, n).len() == 0,
    ensures
        forall|k: int| 0 <= k < n ==> #[trigger] line_at(b, k) == line_at(a, k),
    decreases n,
{
    if n > 0 {
        lemma_block_equal(b, a, first, policy, n - 1);
    }
}

proof fn lemma_runs_agree(lines: Seq<Seq<char>>, edits: Seq<EditView>, n: int)
    requires
        0 <= n <= edits.len(),
        strict_run(lines, edits, n) is Some,
        forall|k: int|
            0 <= k < edits.len() ==> (#[trigger] edits[k]).before.len() > 0 && edits[k].after.len()
                > 0,
    ensures
        ({
            let (src, out) = strict_run(lines, edits, n)->0;
            lenient_run(lines, edits, n) == (LenientState { src, out, offset: 0 })
        }),
    decreases n,
{
    if n > 0 {
        assert(edits[n - 1].before.len() > 0 && edits[n - 1].after.len() > 0);
        lemma_runs_agree(lines, edits, n - 1);
    }
}

proof fn lemma_insert_by_line_holds(sorted: Seq<EditView>, e: EditView, x: EditView)
    requires
        insert_by_line(sorted, e).contains(x),
    ensures
        sorted.contains(x) || x == e,
    decreases sorted.len(),
{
    let all = insert_by_line(sorted, e);
    let k = choose|k: int| 0 <= k < all.len() && all[k] == x;
    if sorted.len() == 0 || sorted.last().line <= e.line {
        if k < sorted.len() {
            assert(sorted[k] == x);
        }
    } else {
        let head = sorted.drop_last();
        let rest = insert_by_line(head, e);
        if k < rest.len() {
            assert(rest[k] == x);
            lemma_insert_by_line_holds(head, e, x);
            if head.contains(x) {
                let m = choose|m: int| 0 <= m < head.len() && head[m] == x;
                assert(sorted[m] == x);
            }
        } else {
            assert(sorted[sorted.len() - 1] == x);
        }
    }
}

proof fn lemma_in_line_order_holds(edits: Seq<EditView>, x: EditView)
    requires
        in_line_order(edits).contains(x),
    ensures
        edits.contains(x),
    decreases edits.len(),
{
    if edits.len() > 0 {
        let head = edits.drop_last();
        let rest = in_line_order(head);
        if edits.last().line > 0 {
            lemma_insert_by_line_holds(rest, edits.last(), x);
        }
        if rest.contains(x) {
            lemma_in_line_order_holds(head, x);
            let m = choose|m: int| 0 <= m < head.len() && head[m] == x;
            assert(edits[m] == x);
        } else {
            assert(edits[edits.len() - 1] == x);
        }
    }
}

/// Where edits fit strictly, and none adds or takes away a line, the lenient
/// way gives the same text.
pub proof fn lemma_lenient_agrees_with_strict(before: Seq<char>, edits: Seq<EditView>)
    requires
        strict_text(before, edits) is Some,
        forall|k: int|
            0 <= k < edits.len() ==> (#[trigger] edits[k]).before.len() > 0 && edits[k].after.len()
                > 0,
    ensures
        Some(lenient_text(before, edits)) == strict_text(before, edits),
{
    let lines = line_text::lines_in(before);
    let order = in_line_order(edits);
    assert forall|k: int| 0 <= k < order.len() implies (#[trigger] order[k]).before.len() > 0
        && order[k].after.len() > 0 by {
        assert(order.contains(order[k]));
        lemma_in_line_order_holds(edits, order[k]);
        let m = choose|m: int| 0 <= m < edits.len() && edits[m] == order[k];
        assert(edits[m].before.len() > 0);
    }
    lemma_runs_agree(lines, order, order.len() as int);
}

/// No edits leave a text as it is, strictly and leniently.
pub proof fn lemma_no_edits_no_change(before: Seq<char>)
    ensures
        strict_text(before, Seq::empty()) == Some(before),
        lenient_text(before, Seq::empty()) == before,
{
    let lines = line_text::lines_in(before);
    assert(in_line_order(Seq::empty()) =~= Seq::empty());
    assert(lines.skip(0) =~= lines);
    line_text::lemma_lines_concat(before);
    assert(Seq::<char>::empty() + before =~= before);
}

/// One edit that expects a line as it is turns this line into what it says, and
/// leaves the others as they are; one that expects another line is refused
/// strictly, and passed over leniently.
pub proof fn lemma_one_edit(before: Seq<char>, e: EditView)
    requires
        0 < e.line <= line_text::lines_in(before).len(),
        e.before.len() > 0,
        e.after.len() > 0,
    ensures
        ({
            let lines = line_text::lines_in(before);
            let here = lines[e.line - 1] == e.before;
            let text = line_text::concat(lines.update(e.line - 1, e.after));
            &&& here ==> strict_text(before, seq![e]) == Some(text)
            &&& here ==> lenient_text(before, seq![e]) == text
            &&& !here ==> strict_text(before, seq![e]) is None
            &&& !here ==> lenient_text(before, seq![e]) == before
        }),
{
    let lines = line_text::lines_in(before);
    let at = e.line - 1;
    let order = seq![e];
    assert(seq![e].drop_last() =~= Seq::empty());
    assert(in_line_order(Seq::<EditView>::empty()) =~= Seq::empty());
    assert(in_line_order(seq![e]) =~= order);
    reveal_with_fuel(strict_run, 2);
    reveal_with_fuel(lenient_run, 2);
    assert(order[0] == e);
    let head = lines.take(at);
    let tail = lines.skip(at + 1);
    assert(lines.subrange(0, at) =~= head);
    let new = lines.update(at, e.after);
    assert(new =~= head + (seq![e.after] + tail));
    line_text::lemma_concat_add(head, seq![e.after] + tail);
    line_text::lemma_concat_add(seq![e.after], tail);
    assert(line_text::concat(seq![e.after]) =~= e.after) by {
        reveal_with_fuel(line_text::concat, 2);
        assert(seq![e.after].drop_first() =~= Seq::empty());
        assert(seq![e.after].drop_last() =~= Seq::empty());
    }
    let up = Seq::<char>::empty() + line_text::concat(head);
    assert(up =~= line_text::concat(head));
    assert(up + e.after + line_text::concat(tail) =~= line_text::concat(new));
    assert(lines =~= head + lines.skip(at));
    line_text::lemma_concat_add(head, lines.skip(at));
    line_text::lemma_lines_concat(before);
}

/// What a result is covered by: its text is never changed, a text that is as
/// it was has no edits, and one that is not has some. Where these do not give
/// the text strictly, they name every line that differs.
pub proof fn lemma_edits_account_for_the_text(
    policy: Seq<char>,
    before: Seq<char>,
    r: ResultView,
    line: usize,
)
    requires
        r.changed || r.text.len() > 0,
    ensures
        ({
            let c = covered(policy, before, r);
            &&& c.text == r.text
            &&& c.violations == r.violations
            &&& r.text == before <==> c.edits.len() == 0
            &&& strict_text(before, c.edits) == Some(r.text) || (changed_lines(
                synthesized(before, r.text, policy),
            ).contains(line) ==> changed_lines(c.edits).contains(line))
            &&& r.edits.len() > 0 && r.text != before && strict_text(before, r.edits) == Some(
                r.text,
            ) ==> c == r
        }),
{
    lemma_no_edits_means_equal(before, r.text, policy);
    lemma_no_edits_no_change(before);
}

/// Edits are applied in the order of their lines, each that names a line once.
pub proof fn lemma_edits_come_in_line_order(edits: Seq<EditView>, x: EditView)
    ensures
        in_line_order(edits).contains(x) <==> edits.contains(x) && x.line > 0,
        forall|i: int, j: int|
            0 <= i < j < in_line_order(edits).len() ==> (#[trigger] in_line_order(edits)[i]).line
                <= (#[trigger] in_line_order(edits)[j]).line,
    decreases edits.len(),
{
    if edits.len() > 0 {
        let head = edits.drop_last();
        let rest = in_line_order(head);
        let last = edits.last();
        lemma_edits_come_in_line_order(head, x);
        assert(edits[edits.len() - 1] == last);
        if last.line > 0 {
            lemma_put_in_line_order(rest, last, x);
        }
        if head.contains(x) {
            let k = choose|k: int| 0 <= k < head.len() && head[k] == x;
            assert(edits[k] == x);
        }
        if edits.contains(x) {
            let k = choose|k: int| 0 <= k < edits.len() && edits[k] == x;
            if k < head.len() {
                assert(head[k] == x);
            }
        }
    }
}

proof fn lemma_put_in_line_order(sorted: Seq<EditView>, e: EditView, x: EditView)
    requires
        forall|i: int, j: int|
            0 <= i < j < sorted.len() ==> (#[trigger] sorted[i]).line <= (
            #[trigger] sorted[j]).line,
    ensures
        insert_by_line(sorted, e).contains(x) <==> sorted.contains(x) || x == e,
        forall|i: int, j: int|
            0 <= i < j < insert_by_line(sorted, e).len() ==> (#[trigger] insert_by_line(
                sorted,
                e,
            )[i]).line <= (#[trigger] insert_by_line(sorted, e)[j]).line,
    decreases sorted.len(),
{
    let all = insert_by_line(sorted, e);
    if sorted.len() == 0 || sorted.last().line <= e.line {
        assert(all[sorted.len() as int] == e);
        if sorted.contains(x) {
            let k = choose|k: int| 0 <= k < sorted.len() && sorted[k] == x;
            assert(all[k] == x);
        }
        if all.contains(x) && x != e {
            let k = choose|k: int| 0 <= k < all.len() && all[k] == x;
            assert(sorted[k] == x);
        }
        assert forall|i: int, j: int| 0 <= i < j < all.len() implies (#[trigger] all[i]).line <= (
        #[trigger] all[j]).line by {
            if j < sorted.len() {
                assert(sorted[i].line <= sorted[j].line);
            } else if i < sorted.len() - 1 {
                assert(sorted[i].line <= sorted[sorted.len() - 1].line);
            }
        }
    } else {
        let head = sorted.drop_last();
        let rest = insert_by_line(head, e);
        let last = sorted.last();
        assert forall|i: int, j: int| 0 <= i < j < head.len() implies (#[trigger] head[i]).line <= (
        #[trigger] head[j]).line by {
            assert(sorted[i].line <= sorted[j].line);
        }
        lemma_put_in_line_order(head, e, x);
        assert(all == rest.push(last));
        assert(all[rest.len() as int] == last);
        assert(sorted[sorted.len() - 1] == last);
        if sorted.contains(x) {
            let k = choose|k: int| 0 <= k < sorted.len() && sorted[k] == x;
            if k < head.len() {
                assert(head[k] == x);
            }
        }
        if rest.contains(x) {
            let k = choose|k: int| 0 <= k < rest.len() && rest[k] == x;
            assert(all[k] == x);
        }
        if head.contains(x) {
            let k = choose|k: int| 0 <= k < head.len() && head[k] == x;
            assert(sorted[k] == x);
        }
        if all.contains(x) {
            let k = choose|k: int| 0 <= k < all.len() && all[k] == x;
            if k < rest.len() {
                assert(rest[k] == x);
            }
        }
        assert forall|i: int, j: int| 0 <= i < j < all.len() implies (#[trigger] all[i]).line <= (
        #[trigger] all[j]).line by {
            if j < rest.len() {
                assert(rest[i].line <= rest[j].line);
            } else {
                lemma_put_in_line_order(head, e, rest[i]);
                assert(rest.contains(rest[i]));
                if rest[i] != e {
                    let k = choose|k: int| 0 <= k < head.len() && head[k] == rest[i];
                    assert(sorted[k].line <= sorted[sorted.len() - 1].line);
                }
            }
        }
    }
}

/// In a lenient run an edit behind a line that was added is looked for one line
/// further down, and one behind a line that was taken away one further up.
pub proof fn lemma_lenient_edits_are_shifted(before: Seq<char>, first: EditView, e: EditView)
    requires
        0 < first.line < e.line < line_text::lines_in(before).len(),
        e.before.len() > 0,
        e.after.len() > 0,
    ensures
        ({
            let lines = line_text::lines_in(before);
            let i = first.line as int;
            let j = e.line as int;
            &&& first.before.len() == 0 && first.after.len() > 0 && lines[j] == e.before
                ==> lenient_text(before, seq![first, e]) == line_text::concat(lines.take(i - 1))
                + first.after + line_text::concat(lines.subrange(i - 1, j)) + e.after
                + line_text::concat(lines.skip(j + 1))
            &&& first.before == lines[i - 1] && first.before.len() > 0 && first.after.len() == 0
                && i + 2 <= j && lines[j - 2] == e.before ==> lenient_text(before, seq![first, e])
                == line_text::concat(lines.take(i - 1)) + line_text::concat(
                lines.subrange(i, j - 2),
            ) + e.after + line_text::concat(lines.skip(j - 1))
        }),
{
    let lines = line_text::lines_in(before);
    let i = first.line as int;
    let j = e.line as int;
    let order = seq![first, e];
    assert(order.drop_last() =~= seq![first]);
    assert(seq![first].drop_last() =~= Seq::empty());
    assert(order.last() == e && seq![first].last() == first);
    assert(in_line_order(Seq::<EditView>::empty()) =~= Seq::empty());
    assert(in_line_order(seq![first]) =~= seq![first]);
    assert(in_line_order(order) =~= order);
    reveal_with_fuel(lenient_run, 3);
    assert(order[0] == first && order[1] == e);
    let start = LenientState { src: 0, out: Seq::empty(), offset: 0 };
    let head = line_text::concat(lines.take(i - 1));
    assert(lines.subrange(0, i - 1) =~= lines.take(i - 1));
    assert(Seq::<char>::empty() + head =~= head);
    let one = lenient_step(lines, start, first);
    if first.before.len() == 0 && first.after.len() > 0 && lines[j] == e.before {
        assert(one.src == i - 1 && one.offset == 1);
        assert(one.out =~= head + first.after);
    }
    if first.before == lines[i - 1] && first.before.len() > 0 && first.after.len() == 0 && i + 2
        <= j && lines[j - 2] == e.before {
        assert(one.src == i && one.offset == -1);
        assert(one.out =~= head);
    }
}

proof fn lemma_changed_lines_finite(edits: Seq<EditView>)
    ensures
        changed_lines(edits).finite(),
{
    let all = edits.map_values(|e: EditView| e.line);
    vstd::seq_lib::seq_to_set_is_finite(all);
    assert forall|line: usize| changed_lines(edits).contains(line) implies all.to_set().contains(
        line,
    ) by {
        let k = choose|k: int|
            0 <= k < edits.len() && (#[trigger] edits[k]).changes() && edits[k].line == line;
        assert(all[k] == line);
    }
    assert(changed_lines(edits).subset_of(all.to_set()));
    vstd::set_lib::lemma_len_subset(changed_lines(edits), all.to_set());
}

/// Where the edits of a result do not give its text strictly, they name exactly
/// the lines that differ.
pub proof fn lemma_edits_name_what_differs(policy: Seq<char>, before: Seq<char>, r: ResultView)
    requires
        r.changed || r.text.len() > 0,
        strict_text(before, covered(policy, before, r).edits) != Some(r.text),
    ensures
        changed_lines(covered(policy, before, r).edits) == changed_lines(
            synthesized(before, r.text, policy),
        ),
{
    let actual = synthesized(before, r.text, policy);
    lemma_no_edits_means_equal(before, r.text, policy);
    lemma_no_edits_no_change(before);
    lemma_changed_lines_finite(r.edits);
    lemma_changed_lines_finite(actual);
    if covered(policy, before, r).edits == r.edits && r.text != before {
        if changed_lines(actual).subset_of(changed_lines(r.edits)) && changed_lines(r.edits).len()
            == changed_lines(actual).len() {
            vstd::set_lib::lemma_subset_equality(changed_lines(actual), changed_lines(r.edits));
        }
    }
}

} // verus!
