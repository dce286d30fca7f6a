//! Directives in comments that switch policies off.
//!
//! A directive is the marker `mjf:`, an action and a list of policies:
//! `mjf:disable a, b` switches `a` and `b` off from its line on, `mjf:enable`
//! switches them on again, and `mjf:ignore` switches them off for its line
//! alone. The policy `*` stands for all.
use std::collections::BTreeSet;
use vstd::prelude::*;

use crate::line_text;
use crate::line_text::split_lines;
use crate::text;
use crate::text::{chars_of, lowercase, starts_with, str_eq, string_of, trim_bounds};

verus! {

broadcast use {
    vstd::std_specs::btree::group_btree_axioms,
    vstd::laws_cmp::group_laws_cmp,
};

/// What a directive does.
#[derive(Clone, Copy, Debug, PartialEq, Eq, Structural)]
pub enum SuppressionAction {
    Disable,
    Enable,
    Ignore,
}

/// A directive: what it does, and to which policies.
#[verifier::ext_equal]
pub ghost struct DirectiveView {
    pub action: SuppressionAction,
    pub targets: Seq<Seq<char>>,
}

#[derive(Debug)]
struct Directive {
    action: SuppressionAction,
    targets: Vec<String>,
}

impl View for Directive {
    type V = DirectiveView;

    closed spec fn view(&self) -> DirectiveView {
        DirectiveView { action: self.action, targets: text::views(self.targets@) }
    }
}

spec fn directive_views(list: Seq<Directive>) -> Seq<DirectiveView> {
    list.map_values(|d: Directive| d@)
}

pub open spec fn is_letter(c: char) -> bool {
    ('a' <= c && c <= 'z') || ('A' <= c && c <= 'Z')
}

/// How many of the first characters are letters.
pub open spec fn leading_letters(s: Seq<char>) -> nat
    decreases s.len(),
{
    if s.len() > 0 && is_letter(s[0]) {
        1 + leading_letters(s.drop_first())
    } else {
        0
    }
}

/// The action of that name.
pub open spec fn action_named(name: Seq<char>) -> Option<SuppressionAction> {
    if name == "disable"@ {
        Some(SuppressionAction::Disable)
    } else if name == "enable"@ {
        Some(SuppressionAction::Enable)
    } else if name == "ignore"@ {
        Some(SuppressionAction::Ignore)
    } else {
        None
    }
}

/// The parts of a string between its commas.
pub open spec fn comma_parts(s: Seq<char>) -> Seq<Seq<char>>
    decreases s.len(),
{
    if s.len() == 0 {
        seq![Seq::empty()]
    } else {
        let parts = comma_parts(s.drop_last());
        if s.last() == ',' {
            parts.push(Seq::empty())
        } else {
            parts.drop_last().push(parts.last().push(s.last()))
        }
    }
}

/// The policies that a list of parts names.
pub open spec fn named_targets(parts: Seq<Seq<char>>) -> Seq<Seq<char>>
    decreases parts.len(),
{
    if parts.len() == 0 {
        Seq::empty()
    } else {
        let rest = named_targets(parts.drop_last());
        let name = text::trimmed(parts.last());
        if name.len() == 0 {
            rest
        } else {
            rest.push(text::lowered(name))
        }
    }
}

/// The action that follows a marker.
pub open spec fn action_in(tail: Seq<char>) -> Option<SuppressionAction> {
    let body = text::trim_start(tail);
    action_named(text::lower_chars(body.take(leading_letters(body) as int)))
}

/// The parts of the list that follows the action.
pub open spec fn parts_in(tail: Seq<char>) -> Seq<Seq<char>> {
    let body = text::trim_start(tail);
    comma_parts(text::trimmed(body.skip(leading_letters(body) as int)))
}

/// The directive that follows a marker.
pub open spec fn directive_in(tail: Seq<char>) -> Option<DirectiveView> {
    match action_in(tail) {
        None => None,
        Some(action) => Some(DirectiveView { action, targets: named_targets(parts_in(tail)) }),
    }
}

/// The directives whose markers begin among the first `n` characters.
pub open spec fn directives_to(line: Seq<char>, n: int) -> Seq<DirectiveView>
    decreases n,
{
    if n <= 0 {
        Seq::empty()
    } else {
        let rest = directives_to(line, n - 1);
        if text::begins_with(line.skip(n - 1), "mjf:"@) {
            match directive_in(line.skip(n + 3)) {
                Some(d) => rest.push(d),
                None => rest,
            }
        } else {
            rest
        }
    }
}

/// The directives of a line.
pub open spec fn directives_of(line: Seq<char>) -> Seq<DirectiveView> {
    directives_to(line, line.len() as int)
}

/// Whether a directive speaks of a policy.
pub open spec fn speaks_of(d: DirectiveView, policy: Seq<char>) -> bool {
    d.targets.contains("*"@) || d.targets.contains(policy)
}

/// Which lines are switched off, and whether the next one is.
#[verifier::ext_equal]
pub ghost struct Switch {
    pub off: bool,
    pub lines: Set<usize>,
}

/// What the first `n` directives of a line do.
pub open spec fn obeyed(
    was: Switch,
    directives: Seq<DirectiveView>,
    policy: Seq<char>,
    line: usize,
    n: int,
) -> Switch
    decreases n,
{
    if n <= 0 {
        was
    } else {
        let s = obeyed(was, directives, policy, line, n - 1);
        let d = directives[n - 1];
        if !speaks_of(d, policy) {
            s
        } else {
            match d.action {
                SuppressionAction::Ignore => Switch { lines: s.lines.insert(line), ..s },
                SuppressionAction::Disable => Switch { off: true, lines: s.lines.insert(line) },
                SuppressionAction::Enable => Switch { off: false, ..s },
            }
        }
    }
}

/// What the first `n` lines of a text do.
pub open spec fn switched(lines: Seq<Seq<char>>, policy: Seq<char>, n: int) -> Switch
    decreases n,
{
    if n <= 0 {
        Switch { off: false, lines: Set::empty() }
    } else {
        let was = switched(lines, policy, n - 1);
        let start = if was.off {
            Switch { lines: was.lines.insert(n as usize), ..was }
        } else {
            was
        };
        let directives = directives_of(lines[n - 1]);
        obeyed(start, directives, policy, n as usize, directives.len() as int)
    }
}

/// The lines of a text on which a policy is switched off.
pub open spec fn disabled(source: Seq<char>, policy: Seq<char>) -> Set<usize> {
    let lines = line_text::lines_in(source);
    switched(lines, text::lowered(text::trimmed(policy)), lines.len() as int).lines
}

/// Reads the directives that switch policies off.
pub struct PolicySuppression;

fn is_ascii_letter(c: char) -> (r: bool)
    ensures
        r == is_letter(c),
{
    ('a' <= c && c <= 'z') || ('A' <= c && c <= 'Z')
}

proof fn lemma_leading_letters(s: Seq<char>, n: int)
    requires
        0 <= n <= s.len(),
        forall|k: int| 0 <= k < n ==> is_letter(#[trigger] s[k]),
        n < s.len() ==> !is_letter(s[n]),
    ensures
        leading_letters(s) == n,
    decreases n,
{
    if n > 0 {
        let rest = s.drop_first();
        assert forall|k: int| 0 <= k < n - 1 implies is_letter(#[trigger] rest[k]) by {
            assert(rest[k] == s[k + 1]);
        }
        if n < s.len() {
            assert(rest[n - 1] == s[n]);
        }
        lemma_leading_letters(rest, n - 1);
    }
}

impl PolicySuppression {
    /// Adds the policy that one part names.
    fn add_target(targets: &mut Vec<String>, part: &[char])
        ensures
            text::views(final(targets)@) == if text::trimmed(part@).len() == 0 {
                text::views(old(targets)@)
            } else {
                text::views(old(targets)@).push(text::lowered(text::trimmed(part@)))
            },
    {
        let (from, to) = trim_bounds(part);
        if from < to {
            let name = string_of(part, from, to);
            let lowered = lowercase(name.as_str());
            let ghost was = targets@;
            targets.push(lowered);
            assert(text::views(targets@) =~= text::views(was).push(lowered@));
        }
    }

    /// The policies that a list names.
    fn parse_targets(list: &[char]) -> (r: Vec<String>)
        ensures
            text::views(r@) == named_targets(comma_parts(list@)),
    {
        let mut targets: Vec<String> = Vec::new();
        let mut part: Vec<char> = Vec::new();
        let mut i: usize = 0;
        assert(list@.take(0) =~= Seq::empty());
        assert(comma_parts(list@.take(0)).drop_last() =~= Seq::empty());
        assert(text::views(targets@) =~= Seq::empty());
        while i < list.len()
            invariant
                i <= list@.len(),
                comma_parts(list@.take(i as int)).len() > 0,
                part@ == comma_parts(list@.take(i as int)).last(),
                text::views(targets@) == named_targets(
                    comma_parts(list@.take(i as int)).drop_last(),
                ),
            decreases list@.len() - i,
        {
            let ghost was = comma_parts(list@.take(i as int));
            let ghost next = comma_parts(list@.take(i + 1));
            assert(list@.take(i + 1).drop_last() =~= list@.take(i as int));
            assert(list@.take(i + 1).last() == list@[i as int]);
            if list[i] == ',' {
                Self::add_target(&mut targets, part.as_slice());
                part = Vec::new();
                assert(next.drop_last() =~= was);
            } else {
                part.push(list[i]);
                assert(next.drop_last() =~= was.drop_last());
            }
            i += 1;
        }
        assert(list@.take(list@.len() as int) =~= list@);
        Self::add_target(&mut targets, part.as_slice());
        targets
    }

    /// The directive that follows a marker.
    fn parse_directive_tail(tail: &[char]) -> (r: Option<Directive>)
        ensures
            match r {
                Some(d) => directive_in(tail@) == Some(d@),
                None => directive_in(tail@) is None,
            },
    {
        let (from, _) = trim_bounds(tail);
        let body = vstd::slice::slice_subrange(tail, from, tail.len());
        assert(body@ =~= text::trim_start(tail@));
        let mut letters: usize = 0;
        while letters < body.len() && is_ascii_letter(body[letters])
            invariant
                letters <= body@.len(),
                forall|k: int| 0 <= k < letters ==> is_letter(#[trigger] body@[k]),
            decreases body@.len() - letters,
        {
            letters += 1;
        }
        proof {
            lemma_leading_letters(body@, letters as int);
        }
        let mut name: Vec<char> = Vec::new();
        let mut i: usize = 0;
        while i < letters
            invariant
                i <= letters <= body@.len(),
                name@ == text::lower_chars(body@.take(i as int)),
            decreases letters - i,
        {
            name.push(text::ascii_lower(body[i]));
            assert(name@ =~= text::lower_chars(body@.take(i + 1)));
            i += 1;
        }
        let name = string_of(name.as_slice(), 0, name.len());
        assert(name@ =~= text::lower_chars(body@.take(letters as int)));
        let action = if str_eq(name.as_str(), "disable") {
            SuppressionAction::Disable
        } else if str_eq(name.as_str(), "enable") {
            SuppressionAction::Enable
        } else if str_eq(name.as_str(), "ignore") {
            SuppressionAction::Ignore
        } else {
            return None;
        };
        let rest = vstd::slice::slice_subrange(body, letters, body.len());
        assert(rest@ =~= body@.skip(letters as int));
        let (start, end) = trim_bounds(rest);
        let list = vstd::slice::slice_subrange(rest, start, end);
        let targets = Self::parse_targets(list);
        let d = Directive { action, targets };
        assert(d@ =~= directive_in(tail@)->Some_0);
        Some(d)
    }

    /// The directives of a line.
    fn directives_in_line(line: &str) -> (r: Vec<Directive>)
        ensures
            directive_views(r@) == directives_of(line@),
    {
        let chars = chars_of(line);
        let marker = chars_of("mjf:");
        let mut r: Vec<Directive> = Vec::new();
        let mut i: usize = 0;
        proof {
            reveal_strlit("mjf:");
        }
        assert(directive_views(r@) =~= Seq::empty());
        while i < chars.len()
            invariant
                i <= chars@.len(),
                chars@ == line@,
                marker@ == "mjf:"@,
                marker@.len() == 4,
                directive_views(r@) == directives_to(line@, i as int),
            decreases chars@.len() - i,
        {
            let rest = vstd::slice::slice_subrange(chars.as_slice(), i, chars.len());
            assert(rest@ =~= line@.skip(i as int));
            if starts_with(rest, marker.as_slice()) {
                let tail = vstd::slice::slice_subrange(chars.as_slice(), i + 4, chars.len());
                assert(tail@ =~= line@.skip(i + 4));
                if let Some(d) = Self::parse_directive_tail(tail) {
                    let ghost was = r@;
                    let ghost view = d@;
                    r.push(d);
                    assert(directive_views(r@) =~= directive_views(was).push(view));
                }
            }
            i += 1;
        }
        r
    }

    /// The lines of a text on which a policy is switched off.
    pub fn disabled_lines(source: &str, policy_name: &str) -> (r: BTreeSet<usize>)
        ensures
            r@ == disabled(source@, policy_name@),
    {
        let name = chars_of(policy_name);
        let (from, to) = trim_bounds(name.as_slice());
        let policy = lowercase(string_of(name.as_slice(), from, to).as_str());
        let lines = split_lines(source);
        let ghost all = text::views(lines@);
        let mut r = BTreeSet::<usize>::new();
        let mut off = false;
        let mut i: usize = 0;
        assert(r@ =~= Set::empty());
        while i < lines.len()
            invariant
                i <= lines@.len(),
                all == text::views(lines@),
                (Switch { off, lines: r@ }) == switched(all, policy@, i as int),
            decreases lines@.len() - i,
        {
            let number = i + 1;
            if off {
                r.insert(number);
            }
            let ghost start = Switch { off, lines: r@ };
            let directives = Self::directives_in_line(lines[i].as_str());
            let ghost views = directive_views(directives@);
            assert(views == directives_of(all[i as int]));
            let mut k: usize = 0;
            while k < directives.len()
                invariant
                    k <= directives@.len(),
                    views == directive_views(directives@),
                    (Switch { off, lines: r@ }) == obeyed(
                        start,
                        views,
                        policy@,
                        number,
                        k as int,
                    ),
                decreases directives@.len() - k,
            {
                let d = &directives[k];
                assert(views[k as int] == d@);
                if text::list_contains(d.targets.as_slice(), "*") || text::list_contains(
                    d.targets.as_slice(),
                    policy.as_str(),
                ) {
                    match d.action {
                        SuppressionAction::Ignore => {
                            r.insert(number);
                        },
                        SuppressionAction::Disable => {
                            off = true;
                            r.insert(number);
                        },
                        SuppressionAction::Enable => {
                            off = false;
                        },
                    }
                }
                assert((Switch { off, lines: r@ }) =~= obeyed(
                    start,
                    views,
                    policy@,
                    number,
                    k + 1,
                ));
                k += 1;
            }
            assert(views.len() == directives@.len());
            i += 1;
        }
        r
    }
}

proof fn lemma_obeyed_keeps(
    was: Switch,
    directives: Seq<DirectiveView>,
    policy: Seq<char>,
    line: usize,
    n: int,
)
    ensures
        was.lines.subset_of(obeyed(was, directives, policy, line, n).lines),
    decreases n,
{
    if n > 0 {
        lemma_obeyed_keeps(was, directives, policy, line, n - 1);
    }
}

/// A policy that is switched off stays off on the next line, whatever that
/// line says; and no later line takes this back.
pub proof fn lemma_switch_carries(lines: Seq<Seq<char>>, policy: Seq<char>, n: int)
    requires
        0 <= n < lines.len() < usize::MAX,
        switched(lines, policy, n).off,
    ensures
        switched(lines, policy, n + 1).lines.contains((n + 1) as usize),
        switched(lines, policy, n).lines.subset_of(switched(lines, policy, n + 1).lines),
{
    let was = switched(lines, policy, n);
    let start = Switch { lines: was.lines.insert((n + 1) as usize), ..was };
    let directives = directives_of(lines[n]);
    lemma_obeyed_keeps(start, directives, policy, (n + 1) as usize, directives.len() as int);
}

proof fn lemma_quiet(lines: Seq<Seq<char>>, policy: Seq<char>, n: int)
    requires
        0 <= n <= lines.len(),
        forall|i: int| 0 <= i < lines.len() ==> (#[trigger] directives_of(lines[i])).len() == 0,
    ensures
        switched(lines, policy, n) == (Switch { off: false, lines: Set::empty() }),
    decreases n,
{
    if n > 0 {
        lemma_quiet(lines, policy, n - 1);
        assert(directives_of(lines[n - 1]).len() == 0);
    }
}

/// A text without directives switches nothing off.
pub proof fn lemma_no_directive_no_suppression(source: Seq<char>, policy: Seq<char>)
    requires
        forall|i: int|
            0 <= i < line_text::lines_in(source).len() ==> (#[trigger] directives_of(
                line_text::lines_in(source)[i],
            )).len() == 0,
    ensures
        disabled(source, policy) == Set::<usize>::empty(),
{
    let lines = line_text::lines_in(source);
    lemma_quiet(
        lines,
        text::lowered(text::trimmed(policy)),
        lines.len() as int,
    );
}

/// Whether two spellings name one policy: apart from the space around them
/// they are the same, or differ in nothing but the case of ASCII letters.
pub open spec fn same_name(a: Seq<char>, b: Seq<char>) -> bool {
    let x = text::trimmed(a);
    let y = text::trimmed(b);
    x == y || (text::all_ascii(x) && text::all_ascii(y) && text::lower_chars(x)
        == text::lower_chars(y))
}

/// A policy is switched off on the same lines however its name is spelled.
pub proof fn lemma_spelling_of_policy(source: Seq<char>, a: Seq<char>, b: Seq<char>)
    requires
        same_name(a, b),
    ensures
        disabled(source, a) == disabled(source, b),
{
}

/// Of an ASCII name of a policy, letter case and the space around it do not
/// matter.
pub proof fn lemma_case_of_policy(source: Seq<char>, policy: Seq<char>)
    requires
        text::all_ascii(policy),
    ensures
        disabled(source, policy) == disabled(source, text::lower_chars(text::trimmed(policy))),
{
    let name = text::trimmed(policy);
    let low = text::lower_chars(name);
    text::lemma_trimmed_twice(policy);
    text::lemma_lower_trimmed(name);
    text::lemma_lower_twice(name);
    text::lemma_lower_ascii(name, low);
    assert(text::trimmed(low) == low);
    lemma_spelling_of_policy(source, policy, low);
}

/// Whether two tails hold the same directive, its targets perhaps spelled in
/// other ways.
pub open spec fn is_respelled_tail(a: Seq<char>, b: Seq<char>) -> bool {
    &&& action_in(a) == action_in(b)
    &&& parts_in(a).len() == parts_in(b).len()
    &&& forall|k: int|
        0 <= k < parts_in(a).len() ==> same_name(#[trigger] parts_in(a)[k], parts_in(b)[k])
}

/// What stands behind the markers that begin among the first `n` characters.
pub open spec fn tails_to(line: Seq<char>, n: int) -> Seq<Seq<char>>
    decreases n,
{
    if n <= 0 {
        Seq::empty()
    } else {
        let rest = tails_to(line, n - 1);
        if text::begins_with(line.skip(n - 1), "mjf:"@) {
            rest.push(line.skip(n + 3))
        } else {
            rest
        }
    }
}

/// Whether two lines hold the same directives, the targets perhaps spelled in
/// other ways.
pub open spec fn is_respelled(a: Seq<char>, b: Seq<char>) -> bool {
    let s = tails_to(a, a.len() as int);
    let t = tails_to(b, b.len() as int);
    s.len() == t.len() && forall|i: int|
        0 <= i < s.len() ==> is_respelled_tail(#[trigger] s[i], t[i])
}

spec fn read_tails(tails: Seq<Seq<char>>) -> Seq<DirectiveView>
    decreases tails.len(),
{
    if tails.len() == 0 {
        Seq::empty()
    } else {
        let rest = read_tails(tails.drop_last());
        match directive_in(tails.last()) {
            Some(d) => rest.push(d),
            None => rest,
        }
    }
}

proof fn lemma_read_tails(line: Seq<char>, n: int)
    ensures
        directives_to(line, n) == read_tails(tails_to(line, n)),
    decreases n,
{
    if n > 0 {
        lemma_read_tails(line, n - 1);
        if text::begins_with(line.skip(n - 1), "mjf:"@) {
            assert(tails_to(line, n).drop_last() =~= tails_to(line, n - 1));
        }
    }
}

proof fn lemma_same_targets(a: Seq<Seq<char>>, b: Seq<Seq<char>>)
    requires
        a.len() == b.len(),
        forall|k: int| 0 <= k < a.len() ==> same_name(#[trigger] a[k], b[k]),
    ensures
        named_targets(a) == named_targets(b),
    decreases a.len(),
{
    if a.len() > 0 {
        let x = a.drop_last();
        let y = b.drop_last();
        assert forall|k: int| 0 <= k < x.len() implies same_name(#[trigger] x[k], y[k]) by {
            assert(x[k] == a[k]);
        }
        lemma_same_targets(x, y);
        assert(same_name(a[a.len() - 1], b[a.len() - 1]));
        assert(text::lower_chars(text::trimmed(a.last())).len() == text::trimmed(a.last()).len());
        assert(text::lower_chars(text::trimmed(b.last())).len() == text::trimmed(b.last()).len());
    }
}

proof fn lemma_same_tails(a: Seq<Seq<char>>, b: Seq<Seq<char>>)
    requires
        a.len() == b.len(),
        forall|i: int| 0 <= i < a.len() ==> is_respelled_tail(#[trigger] a[i], b[i]),
    ensures
        read_tails(a) == read_tails(b),
    decreases a.len(),
{
    if a.len() > 0 {
        let x = a.drop_last();
        let y = b.drop_last();
        assert forall|i: int| 0 <= i < x.len() implies is_respelled_tail(#[trigger] x[i], y[i]) by {
            assert(x[i] == a[i]);
        }
        lemma_same_tails(x, y);
        assert(is_respelled_tail(a[a.len() - 1], b[a.len() - 1]));
        lemma_same_targets(parts_in(a.last()), parts_in(b.last()));
    }
}

proof fn lemma_same_switch(
    a: Seq<Seq<char>>,
    b: Seq<Seq<char>>,
    policy: Seq<char>,
    n: int,
)
    requires
        a.len() == b.len(),
        n <= a.len(),
        forall|i: int| 0 <= i < a.len() ==> is_respelled(#[trigger] a[i], b[i]),
    ensures
        switched(a, policy, n) == switched(b, policy, n),
    decreases n,
{
    if n > 0 {
        lemma_same_switch(a, b, policy, n - 1);
        let x = a[n - 1];
        let y = b[n - 1];
        assert(is_respelled(x, y));
        lemma_read_tails(x, x.len() as int);
        lemma_read_tails(y, y.len() as int);
        lemma_same_tails(tails_to(x, x.len() as int), tails_to(y, y.len() as int));
        assert(directives_of(x) == directives_of(y));
    }
}

/// Directives switch off the same lines however their targets are spelled.
pub proof fn lemma_spelling_of_targets(a: Seq<char>, b: Seq<char>, policy: Seq<char>)
    requires
        line_text::lines_in(a).len() == line_text::lines_in(b).len(),
        forall|i: int|
            0 <= i < line_text::lines_in(a).len() ==> is_respelled(
                #[trigger] line_text::lines_in(a)[i],
                line_text::lines_in(b)[i],
            ),
    ensures
        disabled(a, policy) == disabled(b, policy),
{
    let lines = line_text::lines_in(a);
    lemma_same_switch(
        lines,
        line_text::lines_in(b),
        text::lowered(text::trimmed(policy)),
        lines.len() as int,
    );
}

/// Whether two lines differ in nothing but the case of ASCII letters, have
/// their markers in the same places, and where a target is not ASCII it is the
/// same in both.
pub open spec fn is_recased(a: Seq<char>, b: Seq<char>) -> bool {
    &&& text::lower_chars(a) == text::lower_chars(b)
    &&& forall|i: int|
        0 <= i < a.len() ==> text::begins_with(#[trigger] a.skip(i), "mjf:"@)
            == text::begins_with(b.skip(i), "mjf:"@)
    &&& forall|i: int, k: int|
        0 <= i < a.len() && text::begins_with(a.skip(i), "mjf:"@) && 0 <= k < parts_in(
            a.skip(i + 4),
        ).len() ==> text::all_ascii(#[trigger] parts_in(a.skip(i + 4))[k]) || parts_in(
            a.skip(i + 4),
        )[k] == parts_in(b.skip(i + 4))[k]
}

proof fn lemma_recased_letters(a: Seq<char>, b: Seq<char>)
    requires
        text::lower_chars(a) == text::lower_chars(b),
    ensures
        leading_letters(a) == leading_letters(b),
        leading_letters(a) <= a.len(),
    decreases a.len(),
{
    text::lemma_same_lower(a, b);
    if a.len() > 0 {
        assert(text::char_lower(a[0]) == text::char_lower(b[0]));
        assert(is_letter(a[0]) == is_letter(b[0]));
        assert(text::lower_chars(a.drop_first()) =~= text::lower_chars(a).drop_first());
        assert(text::lower_chars(b.drop_first()) =~= text::lower_chars(b).drop_first());
        lemma_recased_letters(a.drop_first(), b.drop_first());
    }
}

proof fn lemma_recased_parts(a: Seq<char>, b: Seq<char>)
    requires
        text::lower_chars(a) == text::lower_chars(b),
    ensures
        comma_parts(a).len() > 0,
        comma_parts(a).len() == comma_parts(b).len(),
        forall|k: int|
            0 <= k < comma_parts(a).len() ==> text::lower_chars(#[trigger] comma_parts(a)[k])
                == text::lower_chars(comma_parts(b)[k]),
    decreases a.len(),
{
    text::lemma_same_lower(a, b);
    if a.len() > 0 {
        let x = a.drop_last();
        let y = b.drop_last();
        assert(text::lower_chars(x) =~= text::lower_chars(a).drop_last());
        assert(text::lower_chars(y) =~= text::lower_chars(b).drop_last());
        assert(text::char_lower(a[a.len() - 1]) == text::char_lower(b[a.len() - 1]));
        assert(text::char_lower(a.last()) == text::char_lower(b.last()));
        lemma_recased_parts(x, y);
        let p = comma_parts(x);
        let q = comma_parts(y);
        assert((a.last() == ',') == (b.last() == ','));
        assert forall|k: int| 0 <= k < comma_parts(a).len() implies text::lower_chars(
            #[trigger] comma_parts(a)[k],
        ) == text::lower_chars(comma_parts(b)[k]) by {
            if k < p.len() {
                assert(text::lower_chars(p[k]) == text::lower_chars(q[k]));
            }
            if a.last() != ',' && k == p.len() - 1 {
                assert(text::lower_chars(p[k].push(a.last())) =~= text::lower_chars(p[k]).push(
                    text::char_lower(a.last()),
                ));
                assert(text::lower_chars(q[k].push(b.last())) =~= text::lower_chars(q[k]).push(
                    text::char_lower(b.last()),
                ));
            }
        }
    }
}

proof fn lemma_recased_tail(a: Seq<char>, b: Seq<char>)
    requires
        text::lower_chars(a) == text::lower_chars(b),
        forall|k: int|
            0 <= k < parts_in(a).len() ==> text::all_ascii(#[trigger] parts_in(a)[k]) || parts_in(
                a,
            )[k] == parts_in(b)[k],
    ensures
        is_respelled_tail(a, b),
{
    text::lemma_lower_trimmed(a);
    text::lemma_lower_trimmed(b);
    let x = text::trim_start(a);
    let y = text::trim_start(b);
    lemma_recased_letters(x, y);
    let n = leading_letters(x) as int;
    text::lemma_same_lower(x, y);
    assert(text::lower_chars(x.take(n)) =~= text::lower_chars(x).take(n));
    assert(text::lower_chars(y.take(n)) =~= text::lower_chars(y).take(n));
    assert(text::lower_chars(x.skip(n)) =~= text::lower_chars(x).skip(n));
    assert(text::lower_chars(y.skip(n)) =~= text::lower_chars(y).skip(n));
    text::lemma_lower_trimmed(x.skip(n));
    text::lemma_lower_trimmed(y.skip(n));
    lemma_recased_parts(text::trimmed(x.skip(n)), text::trimmed(y.skip(n)));
    assert forall|k: int| 0 <= k < parts_in(a).len() implies same_name(
        #[trigger] parts_in(a)[k],
        parts_in(b)[k],
    ) by {
        let p = parts_in(a)[k];
        let q = parts_in(b)[k];
        assert(text::lower_chars(p) == text::lower_chars(q));
        if p != q {
            text::lemma_lower_ascii(p, q);
            text::lemma_trimmed_twice(p);
            text::lemma_trimmed_twice(q);
            text::lemma_lower_trimmed(p);
            text::lemma_lower_trimmed(q);
        }
    }
}

proof fn lemma_recased_tails(a: Seq<char>, b: Seq<char>, n: int)
    requires
        is_recased(a, b),
        n <= a.len(),
    ensures
        tails_to(a, n).len() == tails_to(b, n).len(),
        forall|i: int|
            0 <= i < tails_to(a, n).len() ==> is_respelled_tail(
                #[trigger] tails_to(a, n)[i],
                tails_to(b, n)[i],
            ),
    decreases n,
{
    if n > 0 {
        lemma_recased_tails(a, b, n - 1);
        let s = tails_to(a, n - 1);
        text::lemma_same_lower(a, b);
        assert(text::begins_with(a.skip(n - 1), "mjf:"@) == text::begins_with(
            b.skip(n - 1),
            "mjf:"@,
        ));
        if text::begins_with(a.skip(n - 1), "mjf:"@) {
            reveal_strlit("mjf:");
            let x = a.skip(n - 1 + 4);
            let y = b.skip(n - 1 + 4);
            assert(text::lower_chars(x) =~= text::lower_chars(a).skip(n + 3));
            assert(text::lower_chars(y) =~= text::lower_chars(b).skip(n + 3));
            assert forall|k: int| 0 <= k < parts_in(x).len() implies text::all_ascii(
                #[trigger] parts_in(x)[k],
            ) || parts_in(x)[k] == parts_in(y)[k] by {
                let i = n - 1;
                assert(parts_in(a.skip(i + 4))[k] == parts_in(x)[k]);
            }
            lemma_recased_tail(x, y);
            assert forall|i: int| 0 <= i < tails_to(a, n).len() implies is_respelled_tail(
                #[trigger] tails_to(a, n)[i],
                tails_to(b, n)[i],
            ) by {
                if i < s.len() {
                    assert(is_respelled_tail(s[i], tails_to(b, n - 1)[i]));
                }
            }
        }
    }
}

/// The case of the letters in the targets of directives does not matter.
pub proof fn lemma_case_of_targets(a: Seq<char>, b: Seq<char>, policy: Seq<char>)
    requires
        line_text::lines_in(a).len() == line_text::lines_in(b).len(),
        forall|i: int|
            0 <= i < line_text::lines_in(a).len() ==> is_recased(
                #[trigger] line_text::lines_in(a)[i],
                line_text::lines_in(b)[i],
            ),
    ensures
        disabled(a, policy) == disabled(b, policy),
{
    let x = line_text::lines_in(a);
    let y = line_text::lines_in(b);
    assert forall|i: int| 0 <= i < x.len() implies is_respelled(#[trigger] x[i], y[i]) by {
        assert(is_recased(x[i], y[i]));
        text::lemma_same_lower(x[i], y[i]);
        lemma_recased_tails(x[i], y[i], x[i].len() as int);
    }
    lemma_spelling_of_targets(a, b, policy);
}

/// Whether a directive of a line, each by its number, does something to a
/// policy.
pub open spec fn says(
    lines: Seq<Seq<char>>,
    policy: Seq<char>,
    line: int,
    k: int,
    action: SuppressionAction,
) -> bool {
    &&& 0 <= line < lines.len()
    &&& 0 <= k < directives_of(lines[line]).len()
    &&& directives_of(lines[line])[k].action == action
    &&& directives_of(lines[line])[k].targets.contains("*"@) || directives_of(
        lines[line],
    )[k].targets.contains(policy)
}

/// Whether a directive stands before another: on an earlier line, or further
/// left.
pub open spec fn stands_before(line: int, k: int, other_line: int, other_k: int) -> bool {
    line < other_line || (line == other_line && k < other_k)
}

spec fn is_left_off(lines: Seq<Seq<char>>, policy: Seq<char>, end: int, line: int, k: int) -> bool {
    &&& line < end
    &&& says(lines, policy, line, k, SuppressionAction::Disable)
    &&& forall|m: int, j: int|
        m < end && stands_before(line, k, m, j) ==> !(#[trigger] says(
            lines,
            policy,
            m,
            j,
            SuppressionAction::Enable,
        ))
}

spec fn nothing_enables(
    lines: Seq<Seq<char>>,
    policy: Seq<char>,
    m: int,
    from: int,
    to: int,
) -> bool {
    forall|j: int|
        from <= j < to ==> !(#[trigger] says(lines, policy, m, j, SuppressionAction::Enable))
}

spec fn turns_off(lines: Seq<Seq<char>>, policy: Seq<char>, m: int, k: int, n: int) -> bool {
    &&& 0 <= k < n
    &&& says(lines, policy, m, k, SuppressionAction::Disable)
    &&& nothing_enables(lines, policy, m, k + 1, n)
}

spec fn marks(lines: Seq<Seq<char>>, policy: Seq<char>, m: int, k: int) -> bool {
    says(lines, policy, m, k, SuppressionAction::Disable) || says(
        lines,
        policy,
        m,
        k,
        SuppressionAction::Ignore,
    )
}

proof fn lemma_obeyed(
    was: Switch,
    lines: Seq<Seq<char>>,
    policy: Seq<char>,
    m: int,
    line: usize,
    n: int,
)
    requires
        0 <= m < lines.len(),
        0 <= n <= directives_of(lines[m]).len(),
    ensures
        ({
            let s = obeyed(was, directives_of(lines[m]), policy, line, n);
            &&& s.off <==> (exists|k: int| #[trigger] turns_off(lines, policy, m, k, n)) || (was.off
                && nothing_enables(lines, policy, m, 0, n))
            &&& forall|x: usize| #[trigger]
                s.lines.contains(x) <==> was.lines.contains(x) || (x == line && exists|k: int|
                    0 <= k < n && #[trigger] marks(lines, policy, m, k))
        }),
    decreases n,
{
    if n > 0 {
        lemma_obeyed(was, lines, policy, m, line, n - 1);
        let ds = directives_of(lines[m]);
        let before = obeyed(was, ds, policy, line, n - 1);
        let s = obeyed(was, ds, policy, line, n);
        let off = says(lines, policy, m, n - 1, SuppressionAction::Disable);
        let on = says(lines, policy, m, n - 1, SuppressionAction::Enable);
        let skip = says(lines, policy, m, n - 1, SuppressionAction::Ignore);
        if off {
            assert(turns_off(lines, policy, m, n - 1, n));
        } else if on {
            assert forall|k: int| !(#[trigger] turns_off(lines, policy, m, k, n)) by {
                if k < n - 1 && turns_off(lines, policy, m, k, n) {
                    assert(!says(lines, policy, m, n - 1, SuppressionAction::Enable));
                }
            }
            assert(!nothing_enables(lines, policy, m, 0, n));
            assert(!s.off);
        } else {
            assert(s.off == before.off);
            assert forall|k: int| #[trigger] turns_off(lines, policy, m, k, n) implies turns_off(
                lines,
                policy,
                m,
                k,
                n - 1,
            ) by {}
            assert forall|k: int| #[trigger]
                turns_off(lines, policy, m, k, n - 1) implies turns_off(
                lines,
                policy,
                m,
                k,
                n,
            ) by {}
            assert(nothing_enables(lines, policy, m, 0, n) == nothing_enables(
                lines,
                policy,
                m,
                0,
                n - 1,
            ));
        }
        assert forall|x: usize| #[trigger] s.lines.contains(x) <==> was.lines.contains(x) || (x
            == line && exists|k: int| 0 <= k < n && #[trigger] marks(lines, policy, m, k)) by {
            assert(s.lines.contains(x) <==> before.lines.contains(x) || (x == line && (off
                || skip)));
            if off || skip {
                assert(marks(lines, policy, m, n - 1));
            }
        }
    } else {
        assert(nothing_enables(lines, policy, m, 0, n));
    }
}

spec fn is_silenced(lines: Seq<Seq<char>>, policy: Seq<char>, line: int) -> bool {
    ||| exists|k: int| #[trigger] says(lines, policy, line - 1, k, SuppressionAction::Ignore)
    ||| exists|k: int| #[trigger] says(lines, policy, line - 1, k, SuppressionAction::Disable)
    ||| exists|m: int, k: int| #[trigger] is_left_off(lines, policy, line - 1, m, k)
}

proof fn lemma_switched(lines: Seq<Seq<char>>, policy: Seq<char>, n: int)
    requires
        0 <= n <= lines.len() <= usize::MAX,
    ensures
        switched(lines, policy, n).off <==> exists|m: int, k: int| #[trigger]
            is_left_off(lines, policy, n, m, k),
        forall|x: usize| #[trigger]
            switched(lines, policy, n).lines.contains(x) <==> 1 <= x <= n && is_silenced(
                lines,
                policy,
                x as int,
            ),
    decreases n,
{
    if n > 0 {
        lemma_switched(lines, policy, n - 1);
        let was = switched(lines, policy, n - 1);
        let start = if was.off {
            Switch { lines: was.lines.insert(n as usize), ..was }
        } else {
            was
        };
        let ds = directives_of(lines[n - 1]);
        let len = ds.len() as int;
        let now = switched(lines, policy, n);
        lemma_obeyed(start, lines, policy, n - 1, n as usize, len);
        if now.off {
            if exists|k: int| #[trigger] turns_off(lines, policy, n - 1, k, len) {
                let k = choose|k: int| #[trigger] turns_off(lines, policy, n - 1, k, len);
                assert(is_left_off(lines, policy, n, n - 1, k));
            } else {
                let (m, k) = choose|m: int, k: int| #[trigger]
                    is_left_off(lines, policy, n - 1, m, k);
                assert(is_left_off(lines, policy, n, m, k));
            }
        }
        if exists|m: int, k: int| #[trigger] is_left_off(lines, policy, n, m, k) {
            let (m, k) = choose|m: int, k: int| #[trigger] is_left_off(lines, policy, n, m, k);
            if m == n - 1 {
                assert(turns_off(lines, policy, n - 1, k, len)) by {
                    assert forall|j: int| k + 1 <= j < len implies !(#[trigger] says(
                        lines,
                        policy,
                        n - 1,
                        j,
                        SuppressionAction::Enable,
                    )) by {
                        assert(stands_before(m, k, n - 1, j));
                    }
                }
            } else {
                assert(is_left_off(lines, policy, n - 1, m, k));
                assert(nothing_enables(lines, policy, n - 1, 0, len)) by {
                    assert forall|j: int| 0 <= j < len implies !(#[trigger] says(
                        lines,
                        policy,
                        n - 1,
                        j,
                        SuppressionAction::Enable,
                    )) by {
                        assert(stands_before(m, k, n - 1, j));
                    }
                }
            }
        }
        assert forall|x: usize| #[trigger] now.lines.contains(x) <==> 1 <= x <= n && is_silenced(
            lines,
            policy,
            x as int,
        ) by {
            assert(was.lines.contains(x) <==> 1 <= x <= n - 1 && is_silenced(
                lines,
                policy,
                x as int,
            ));
            if x == n {
                lemma_silenced(lines, policy, n);
                assert(start.lines.contains(x) == was.off);
            } else {
                assert(start.lines.contains(x) == was.lines.contains(x));
            }
        }
    }
}

proof fn lemma_silenced(lines: Seq<Seq<char>>, policy: Seq<char>, n: int)
    requires
        1 <= n <= lines.len(),
    ensures
        is_silenced(lines, policy, n) <==> (exists|k: int|
            0 <= k < directives_of(lines[n - 1]).len() && #[trigger] marks(
                lines,
                policy,
                n - 1,
                k,
            )) || (exists|m: int, k: int| #[trigger] is_left_off(lines, policy, n - 1, m, k)),
{
    if exists|k: int|
        0 <= k < directives_of(lines[n - 1]).len() && #[trigger] marks(lines, policy, n - 1, k) {
        let k = choose|k: int|
            0 <= k < directives_of(lines[n - 1]).len() && #[trigger] marks(
                lines,
                policy,
                n - 1,
                k,
            );
        assert(says(lines, policy, n - 1, k, SuppressionAction::Disable) || says(
            lines,
            policy,
            n - 1,
            k,
            SuppressionAction::Ignore,
        ));
    }
    if exists|k: int| #[trigger] says(lines, policy, n - 1, k, SuppressionAction::Ignore) {
        let k = choose|k: int| #[trigger]
            says(lines, policy, n - 1, k, SuppressionAction::Ignore);
        assert(marks(lines, policy, n - 1, k));
    }
    if exists|k: int| #[trigger] says(lines, policy, n - 1, k, SuppressionAction::Disable) {
        let k = choose|k: int| #[trigger]
            says(lines, policy, n - 1, k, SuppressionAction::Disable);
        assert(marks(lines, policy, n - 1, k));
    }
}

/// On which lines a policy is switched off: on those that say so, and on those
/// behind a line that switches it off for good and after which nothing
/// switches it on again.
pub proof fn lemma_where_a_policy_is_off(source: Seq<char>, policy: Seq<char>, line: usize)
    requires
        line_text::lines_in(source).len() <= usize::MAX,
    ensures
        ({
            let lines = line_text::lines_in(source);
            let name = text::lowered(text::trimmed(policy));
            disabled(source, policy).contains(line) <==> {
                &&& 1 <= line <= lines.len()
                &&& (exists|k: int| #[trigger]
                    says(lines, name, line - 1, k, SuppressionAction::Ignore)) || (exists|k: int|
                 #[trigger]
                    says(lines, name, line - 1, k, SuppressionAction::Disable)) || (exists|
                    m: int,
                    k: int,
                |
                    m < line - 1 && #[trigger] says(lines, name, m, k, SuppressionAction::Disable)
                        && forall|a: int, j: int|
                        a < line - 1 && stands_before(m, k, a, j) ==> !(#[trigger] says(
                            lines,
                            name,
                            a,
                            j,
                            SuppressionAction::Enable,
                        )))
            }
        }),
{
    let lines = line_text::lines_in(source);
    let name = text::lowered(text::trimmed(policy));
    lemma_switched(lines, name, lines.len() as int);
    assert forall|m: int, k: int| #[trigger] is_left_off(lines, name, line - 1, m, k) implies says(
        lines,
        name,
        m,
        k,
        SuppressionAction::Disable,
    ) by {}
    if exists|m: int, k: int|
        m < line - 1 && #[trigger] says(lines, name, m, k, SuppressionAction::Disable) && forall|
            a: int,
            j: int,
        |
            a < line - 1 && stands_before(m, k, a, j) ==> !(#[trigger] says(
                lines,
                name,
                a,
                j,
                SuppressionAction::Enable,
            )) {
        let (m, k) = choose|m: int, k: int|
            m < line - 1 && #[trigger] says(lines, name, m, k, SuppressionAction::Disable)
                && forall|a: int, j: int|
                a < line - 1 && stands_before(m, k, a, j) ==> !(#[trigger] says(
                    lines,
                    name,
                    a,
                    j,
                    SuppressionAction::Enable,
                ));
        assert(is_left_off(lines, name, line - 1, m, k));
    }
    if exists|m: int, k: int| #[trigger] is_left_off(lines, name, line - 1, m, k) {
        let (m, k) = choose|m: int, k: int| #[trigger] is_left_off(lines, name, line - 1, m, k);
        assert(says(lines, name, m, k, SuppressionAction::Disable));
    }
}

/// In a text whose directives all say `ignore`, a policy is off on exactly the
/// lines with a directive that names it or all policies.
pub proof fn lemma_ignore_is_for_its_line(source: Seq<char>, policy: Seq<char>, line: usize)
    requires
        line_text::lines_in(source).len() <= usize::MAX,
        forall|i: int, k: int|
            #![trigger directives_of(line_text::lines_in(source)[i])[k]]
            0 <= i < line_text::lines_in(source).len() && 0 <= k < directives_of(
                line_text::lines_in(source)[i],
            ).len() ==> directives_of(line_text::lines_in(source)[i])[k].action
                == SuppressionAction::Ignore,
    ensures
        ({
            let lines = line_text::lines_in(source);
            let name = text::lowered(text::trimmed(policy));
            disabled(source, policy).contains(line) <==> 1 <= line <= lines.len() && exists|k: int|
                0 <= k < directives_of(lines[line - 1]).len() && ((#[trigger] directives_of(
                    lines[line - 1],
                )[k]).targets.contains("*"@) || directives_of(
                    lines[line - 1],
                )[k].targets.contains(name))
        }),
{
    let lines = line_text::lines_in(source);
    let name = text::lowered(text::trimmed(policy));
    lemma_where_a_policy_is_off(source, policy, line);
    assert forall|m: int, k: int| !(#[trigger] says(
        lines,
        name,
        m,
        k,
        SuppressionAction::Disable,
    )) by {}
    if 1 <= line <= lines.len() {
        let ds = directives_of(lines[line - 1]);
        assert forall|k: int|
            0 <= k < ds.len() && ((#[trigger] ds[k]).targets.contains("*"@)
                || ds[k].targets.contains(name)) implies says(
            lines,
            name,
            line - 1,
            k,
            SuppressionAction::Ignore,
        ) by {
            assert(directives_of(lines[line - 1])[k].action == SuppressionAction::Ignore);
        }
    }
}

proof fn lemma_read_directive(line: Seq<char>, n: int, i: int, d: DirectiveView)
    requires
        0 <= i < n <= line.len(),
        text::begins_with(line.skip(i), "mjf:"@),
        directive_in(line.skip(i + 4)) == Some(d),
    ensures
        directives_to(line, n).contains(d),
    decreases n,
{
    let rest = directives_to(line, n - 1);
    let all = directives_to(line, n);
    if i == n - 1 {
        assert(line.skip(n + 3) == line.skip(i + 4));
        assert(all == rest.push(d));
        assert(all[rest.len() as int] == d);
    } else {
        lemma_read_directive(line, n - 1, i, d);
        let k = choose|k: int| 0 <= k < rest.len() && rest[k] == d;
        assert(all[k] == d);
    }
}

proof fn lemma_no_comma(s: Seq<char>)
    requires
        forall|k: int| 0 <= k < s.len() ==> #[trigger] s[k] != ',',
    ensures
        comma_parts(s) == seq![s],
    decreases s.len(),
{
    if s.len() > 0 {
        let head = s.drop_last();
        assert forall|k: int| 0 <= k < head.len() implies #[trigger] head[k] != ',' by {
            assert(head[k] == s[k]);
        }
        lemma_no_comma(head);
        assert(s.last() == s[s.len() - 1]);
        assert(head.push(s.last()) =~= s);
        assert(comma_parts(s) =~= seq![s]);
    } else {
        assert(s =~= Seq::empty());
    }
}

/// A comma parts the targets: those before it come first, and then those behind
/// it.
pub proof fn lemma_commas_part_targets(a: Seq<char>, b: Seq<char>)
    ensures
        named_targets(comma_parts(a + seq![','] + b)) == named_targets(comma_parts(a))
            + named_targets(comma_parts(b)),
{
    lemma_comma_split(a, b);
    lemma_targets_add(comma_parts(a), comma_parts(b));
}

proof fn lemma_comma_split(a: Seq<char>, b: Seq<char>)
    ensures
        comma_parts(a + seq![','] + b) == comma_parts(a) + comma_parts(b),
        comma_parts(b).len() > 0,
    decreases b.len(),
{
    let all = a + seq![','] + b;
    if b.len() == 0 {
        assert(all.drop_last() =~= a);
        assert(comma_parts(all) =~= comma_parts(a) + comma_parts(b));
    } else {
        let head = b.drop_last();
        lemma_comma_split(a, head);
        assert(all.drop_last() =~= a + seq![','] + head);
        assert(all.last() == b.last());
        assert(comma_parts(all) =~= comma_parts(a) + comma_parts(b));
    }
}

proof fn lemma_targets_add(a: Seq<Seq<char>>, b: Seq<Seq<char>>)
    ensures
        named_targets(a + b) == named_targets(a) + named_targets(b),
    decreases b.len(),
{
    if b.len() == 0 {
        assert(a + b =~= a);
        assert(named_targets(a) + named_targets(b) =~= named_targets(a));
    } else {
        lemma_targets_add(a, b.drop_last());
        assert((a + b).drop_last() =~= a + b.drop_last());
        assert((a + b).last() == b.last());
        assert(named_targets(a + b) =~= named_targets(a) + named_targets(b));
    }
}

/// The word of an action.
pub open spec fn action_word(action: SuppressionAction) -> Seq<char> {
    match action {
        SuppressionAction::Disable => "disable"@,
        SuppressionAction::Enable => "enable"@,
        SuppressionAction::Ignore => "ignore"@,
    }
}

proof fn lemma_action_word(action: SuppressionAction)
    ensures
        action_named(action_word(action)) == Some(action),
        text::lower_chars(action_word(action)) == action_word(action),
        action_word(action).len() > 0,
        forall|k: int|
            0 <= k < action_word(action).len() ==> 'a' <= #[trigger] action_word(action)[k]
                && action_word(action)[k] <= 'z',
{
    reveal_strlit("disable");
    reveal_strlit("enable");
    reveal_strlit("ignore");
    assert("disable"@[0] == 'd' && "enable"@[0] == 'e' && "ignore"@[0] == 'i');
    assert(text::lower_chars(action_word(action)) =~= action_word(action));
}

/// A marker, the word of an action, a blank and a list make a directive of the
/// line, whatever stands before: it does what the word says to the policies of
/// the list. A list without a comma names one policy.
pub proof fn lemma_directive_is_read(
    before: Seq<char>,
    action: SuppressionAction,
    list: Seq<char>,
)
    requires
        text::trimmed(list).len() > 0,
        forall|k: int| 0 <= k < text::trimmed(list).len() ==> #[trigger] text::trimmed(list)[k]
            != ',',
    ensures
        directives_of(before + "mjf:"@ + action_word(action) + seq![' '] + list).contains(
            DirectiveView { action, targets: seq![text::lowered(text::trimmed(list))] },
        ),
{
    reveal_strlit("mjf:");
    let word = action_word(action);
    let line = before + "mjf:"@ + word + seq![' '] + list;
    let i = before.len() as int;
    let tail = word + seq![' '] + list;
    lemma_action_word(action);
    assert(line.skip(i).take(4) =~= "mjf:"@);
    assert(line.skip(i + 4) =~= tail);
    assert(tail[0] == word[0]);
    assert(!text::is_white_space(tail[0])) by {
        assert('a' <= word[0] && word[0] <= 'z');
    }
    assert(text::leading_space(tail) == 0);
    assert(text::trim_start(tail) =~= tail);
    let n = word.len() as int;
    assert forall|k: int| 0 <= k < n implies is_letter(#[trigger] tail[k]) by {
        assert(tail[k] == word[k]);
    }
    assert(tail[n] == ' ');
    lemma_leading_letters(tail, n);
    assert(tail.take(n) =~= word);
    assert(tail.skip(n) =~= seq![' '] + list);
    text::lemma_leading_blank(list);
    text::lemma_trimmed_twice(list);
    let name = text::trimmed(list);
    lemma_no_comma(name);
    assert(parts_in(tail) == seq![name]);
    assert(named_targets(seq![name].drop_last()) =~= Seq::empty()) by {
        assert(seq![name].drop_last() =~= Seq::<Seq<char>>::empty());
    }
    assert(seq![name].last() == name);
    let d = DirectiveView { action, targets: seq![text::lowered(name)] };
    assert(named_targets(seq![name]) =~= d.targets);
    assert(directive_in(tail) == Some(d));
    lemma_read_directive(line, line.len() as int, i, d);
}

/// A line without the marker holds no directive.
pub proof fn lemma_no_marker_no_directive(line: Seq<char>)
    requires
        forall|i: int| 0 <= i && i + 4 <= line.len() ==> #[trigger] line.subrange(i, i + 4)
            != "mjf:"@,
    ensures
        directives_of(line).len() == 0,
{
    lemma_no_marker(line, line.len() as int);
}

proof fn lemma_no_marker(line: Seq<char>, n: int)
    requires
        n <= line.len(),
        forall|i: int| 0 <= i && i + 4 <= line.len() ==> #[trigger] line.subrange(i, i + 4)
            != "mjf:"@,
    ensures
        directives_to(line, n).len() == 0,
    decreases n,
{
    reveal_strlit("mjf:");
    if n > 0 {
        lemma_no_marker(line, n - 1);
        if text::begins_with(line.skip(n - 1), "mjf:"@) {
            let i = n - 1;
            assert(line.skip(i).take(4) =~= line.subrange(i, i + 4));
        }
    }
}

} // verus!
