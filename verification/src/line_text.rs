//! Text as a list of lines, each with the line break that ends it.
use vstd::prelude::*;

use crate::text;
use crate::text::{chars_of, string_of};

verus! {

/// How many characters the first line has, its line break included.
pub open spec fn first_line_len(s: Seq<char>) -> nat
    decreases s.len(),
{
    if s.len() == 0 {
        0
    } else if s[0] == '\n' {
        1
    } else {
        1 + first_line_len(s.drop_first())
    }
}

/// The lines of a text. Each but the last ends with its line break; no line
/// is empty.
pub open spec fn lines_in(s: Seq<char>) -> Seq<Seq<char>>
    decreases s.len(),
{
    if s.len() == 0 {
        Seq::empty()
    } else {
        proof {
            lemma_first_line_len(s);
        }
        let n = first_line_len(s) as int;
        seq![s.take(n)] + lines_in(s.skip(n))
    }
}

/// The lines one after the other.
pub open spec fn concat(lines: Seq<Seq<char>>) -> Seq<char>
    decreases lines.len(),
{
    if lines.len() == 0 {
        Seq::empty()
    } else {
        concat(lines.drop_last()) + lines.last()
    }
}

pub proof fn lemma_first_line_len(s: Seq<char>)
    ensures
        first_line_len(s) <= s.len(),
        s.len() > 0 ==> first_line_len(s) > 0,
    decreases s.len(),
{
    if s.len() > 0 && s[0] != '\n' {
        lemma_first_line_len(s.drop_first());
    }
}

pub proof fn lemma_concat_add(a: Seq<Seq<char>>, b: Seq<Seq<char>>)
    ensures
        concat(a + b) == concat(a) + concat(b),
    decreases b.len(),
{
    if b.len() == 0 {
        assert(a + b =~= a);
        assert(concat(a) + concat(b) =~= concat(a));
    } else {
        lemma_concat_add(a, b.drop_last());
        assert((a + b).drop_last() =~= a + b.drop_last());
        assert((a + b).last() == b.last());
        assert(concat(a) + concat(b) =~= (concat(a) + concat(b.drop_last())) + b.last());
    }
}

/// Putting the lines of a text together gives the text again.
pub proof fn lemma_lines_concat(s: Seq<char>)
    ensures
        concat(lines_in(s)) == s,
    decreases s.len(),
{
    if s.len() > 0 {
        lemma_first_line_len(s);
        let n = first_line_len(s) as int;
        let head = seq![s.take(n)];
        lemma_lines_concat(s.skip(n));
        lemma_concat_add(head, lines_in(s.skip(n)));
        assert(head.drop_last() =~= Seq::empty());
        assert(concat(head.drop_last()) =~= Seq::empty());
        assert(concat(head) =~= s.take(n));
        assert(s.take(n) + s.skip(n) =~= s);
    }
}

/// Two texts with the same lines are the same.
pub proof fn lemma_lines_injective(a: Seq<char>, b: Seq<char>)
    requires
        lines_in(a) == lines_in(b),
    ensures
        a == b,
{
    lemma_lines_concat(a);
    lemma_lines_concat(b);
}

/// No line is empty.
pub proof fn lemma_lines_nonempty(s: Seq<char>)
    ensures
        forall|k: int| 0 <= k < lines_in(s).len() ==> (#[trigger] lines_in(s)[k]).len() > 0,
    decreases s.len(),
{
    if s.len() > 0 {
        lemma_first_line_len(s);
        let n = first_line_len(s) as int;
        lemma_lines_nonempty(s.skip(n));
        let rest = lines_in(s.skip(n));
        assert forall|k: int| 0 <= k < lines_in(s).len() implies (#[trigger] lines_in(s)[k]).len()
            > 0 by {
            if k > 0 {
                assert(lines_in(s)[k] == rest[k - 1]);
            }
        }
    }
}

proof fn lemma_first_break(s: Seq<char>, n: int)
    requires
        0 <= n < s.len(),
        forall|k: int| 0 <= k < n ==> #[trigger] s[k] != '\n',
    ensures
        s[n] == '\n' ==> first_line_len(s) == n + 1,
        n == s.len() - 1 ==> first_line_len(s) == n + 1,
    decreases n,
{
    if n > 0 {
        let rest = s.drop_first();
        assert(s[0] != '\n');
        assert forall|k: int| 0 <= k < n - 1 implies #[trigger] rest[k] != '\n' by {
            assert(rest[k] == s[k + 1]);
        }
        assert(rest[n - 1] == s[n]);
        lemma_first_break(rest, n - 1);
    } else if s.len() == 1 && s[0] != '\n' {
        assert(first_line_len(s.drop_first()) == 0);
    }
}

/// Splits a text into its lines.
pub fn split_lines(source: &str) -> (r: Vec<String>)
    ensures
        text::views(r@) == lines_in(source@),
{
    let chars = chars_of(source);
    let ghost s = source@;
    let mut r: Vec<String> = Vec::new();
    let mut start: usize = 0;
    let mut i: usize = 0;
    assert(s.skip(0) =~= s);
    assert(text::views(r@) =~= Seq::empty());
    while i < chars.len()
        invariant
            chars@ == s,
            start <= i <= s.len(),
            forall|k: int| start <= k < i ==> #[trigger] s[k] != '\n',
            text::views(r@) + lines_in(s.skip(start as int)) == lines_in(s),
        decreases s.len() - i,
    {
        if chars[i] == '\n' {
            let line = string_of(chars.as_slice(), start, i + 1);
            let ghost was = text::views(r@);
            r.push(line);
            proof {
                let rest = s.skip(start as int);
                assert forall|k: int| 0 <= k < i - start implies #[trigger] rest[k] != '\n' by {
                    assert(rest[k] == s[k + start]);
                }
                assert(rest[i - start] == s[i as int]);
                lemma_first_break(rest, i - start);
                assert(rest.take(i - start + 1) =~= s.subrange(start as int, i + 1));
                assert(rest.skip(i - start + 1) =~= s.skip(i + 1));
                assert(text::views(r@) =~= was.push(line@));
                assert(text::views(r@) + lines_in(s.skip(i + 1)) =~= was + lines_in(rest));
            }
            start = i + 1;
        }
        i += 1;
    }
    if start < chars.len() {
        let line = string_of(chars.as_slice(), start, chars.len());
        let ghost was = text::views(r@);
        r.push(line);
        proof {
            let rest = s.skip(start as int);
            assert forall|k: int| 0 <= k < rest.len() implies #[trigger] rest[k] != '\n' by {
                assert(rest[k] == s[k + start]);
            }
            lemma_first_break(rest, rest.len() - 1);
            assert(rest.take(rest.len() as int) =~= s.subrange(start as int, s.len() as int));
            assert(rest.skip(rest.len() as int) =~= Seq::empty());
            assert(text::views(r@) =~= was.push(line@));
            assert(lines_in(rest.skip(rest.len() as int)) =~= Seq::empty());
            assert(was + lines_in(rest) =~= was.push(line@));
        }
    } else {
        assert(s.skip(start as int) =~= Seq::empty());
        assert(text::views(r@) + Seq::<Seq<char>>::empty() =~= text::views(r@));
    }
    r
}

/// Puts lines together.
pub fn concat_lines(lines: &[String]) -> (r: String)
    ensures
        r@ == concat(text::views(lines@)),
{
    let mut r = String::new();
    let mut i: usize = 0;
    while i < lines.len()
        invariant
            i <= lines@.len(),
            r@ == concat(text::views(lines@).take(i as int)),
        decreases lines@.len() - i,
    {
        r.append(lines[i].as_str());
        i += 1;
        proof {
            let now = text::views(lines@).take(i as int);
            assert(now.drop_last() =~= text::views(lines@).take(i - 1));
            assert(now.last() == lines@[i - 1]@);
        }
    }
    assert(text::views(lines@).take(lines@.len() as int) =~= text::views(lines@));
    r
}

/// Whether a line holds something, and no line break but at its end.
pub open spec fn is_line(line: Seq<char>) -> bool {
    &&& line.len() > 0
    &&& forall|k: int| 0 <= k < line.len() - 1 ==> #[trigger] line[k] != '\n'
}

/// Whether the lists are lines, each but the last ended by a line break.
pub open spec fn are_lines(lines: Seq<Seq<char>>) -> bool {
    &&& forall|k: int| 0 <= k < lines.len() ==> is_line(#[trigger] lines[k])
    &&& forall|k: int| 0 <= k < lines.len() - 1 ==> (#[trigger] lines[k]).last() == '\n'
}

proof fn lemma_first_line(s: Seq<char>)
    requires
        s.len() > 0,
    ensures
        is_line(s.take(first_line_len(s) as int)),
        first_line_len(s) < s.len() ==> s[first_line_len(s) - 1] == '\n',
    decreases s.len(),
{
    lemma_first_line_len(s);
    if s[0] != '\n' && s.len() > 1 {
        let rest = s.drop_first();
        lemma_first_line(rest);
        lemma_first_line_len(rest);
        let n = first_line_len(rest) as int;
        let line = s.take(n + 1);
        assert forall|k: int| 0 <= k < line.len() - 1 implies #[trigger] line[k] != '\n' by {
            if k > 0 {
                assert(rest.take(n)[k - 1] == line[k]);
            }
        }
        if n < rest.len() {
            assert(s[n] == rest[n - 1]);
        }
    } else if s[0] != '\n' {
        assert(first_line_len(s.drop_first()) == 0);
    }
}

/// What a text splits into are lines.
pub proof fn lemma_lines_are_lines(s: Seq<char>)
    ensures
        are_lines(lines_in(s)),
    decreases s.len(),
{
    if s.len() > 0 {
        lemma_first_line_len(s);
        lemma_first_line(s);
        let n = first_line_len(s) as int;
        let rest = lines_in(s.skip(n));
        let all = lines_in(s);
        lemma_lines_are_lines(s.skip(n));
        assert forall|k: int| 0 <= k < all.len() implies is_line(#[trigger] all[k]) by {
            if k > 0 {
                assert(all[k] == rest[k - 1]);
            }
        }
        assert forall|k: int| 0 <= k < all.len() - 1 implies (#[trigger] all[k]).last() == '\n' by {
            if k > 0 {
                assert(all[k] == rest[k - 1]);
            } else {
                if n == s.len() {
                    assert(s.skip(n) =~= Seq::empty());
                }
                assert(s.take(n).last() == s[n - 1]);
            }
        }
    }
}

/// Lines that are put together split into the same lines again.
pub proof fn lemma_concat_lines(lines: Seq<Seq<char>>)
    requires
        are_lines(lines),
    ensures
        lines_in(concat(lines)) == lines,
    decreases lines.len(),
{
    if lines.len() == 0 {
        assert(lines_in(concat(lines)) =~= lines);
    } else {
        let line = lines[0];
        let rest = lines.drop_first();
        assert(lines =~= seq![line] + rest);
        lemma_concat_add(seq![line], rest);
        assert(seq![line].drop_last() =~= Seq::empty());
        assert(concat(seq![line].drop_last()) =~= Seq::empty());
        assert(concat(seq![line]) =~= line);
        let s = concat(lines);
        assert(s == line + concat(rest));
        assert forall|k: int| 0 <= k < rest.len() implies is_line(#[trigger] rest[k]) by {
            assert(rest[k] == lines[k + 1]);
        }
        assert forall|k: int| 0 <= k < rest.len() - 1 implies (#[trigger] rest[k]).last()
            == '\n' by {
            assert(rest[k] == lines[k + 1]);
        }
        lemma_concat_lines(rest);
        assert(is_line(lines[0]));
        let n = line.len() - 1;
        assert forall|k: int| 0 <= k < n implies #[trigger] s[k] != '\n' by {
            assert(s[k] == line[k]);
        }
        if rest.len() > 0 {
            assert(lines[0].last() == '\n');
            assert(s[n] == line[n]);
        } else {
            assert(concat(rest) =~= Seq::empty());
        }
        lemma_first_break(s, n);
        assert(s.take(n + 1) =~= line);
        assert(s.skip(n + 1) =~= concat(rest));
    }
}

} // verus!
