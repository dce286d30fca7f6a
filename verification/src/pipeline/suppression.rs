//! Taking back the part of a policy's result that touches given lines.
use std::collections::BTreeSet;
use vstd::prelude::*;

use crate::catalog::PolicyCapabilities;
use crate::line_text;
use crate::line_text::{concat_lines, split_lines};
use crate::lines;
use crate::lines::lines_of;
use crate::model;
use crate::model::{warn, Edit, EditView, PolicyResult, ResultView, Violation, ViolationView};
use crate::pipeline::edit_utils;
use crate::pipeline::edit_utils::{
    apply_edits_lenient, apply_synthesized_edits, synthesize_line_edits,
};
use crate::run_options::RetryScopeStage;
use crate::text;
use crate::text::{decimal_of, str_eq};

verus! {

broadcast use {
    vstd::std_specs::btree::group_btree_axioms,
    vstd::laws_cmp::group_laws_cmp,
};

/// The index of a line; line 0 counts as the first.
pub open spec fn slot(line: usize) -> int {
    if line == 0 {
        0
    } else {
        line - 1
    }
}

/// Whether the line at an index is disabled.
pub open spec fn slot_disabled(disabled: Set<usize>, i: int) -> bool {
    exists|line: usize| #[trigger] disabled.contains(line) && slot(line) == i
}

/// The violations on other lines.
pub open spec fn kept_violations(v: Seq<ViolationView>, disabled: Set<usize>) -> Seq<ViolationView>
    decreases v.len(),
{
    if v.len() == 0 {
        Seq::empty()
    } else {
        let rest = kept_violations(v.drop_last(), disabled);
        if disabled.contains(v.last().line) {
            rest
        } else {
            rest.push(v.last())
        }
    }
}

/// The edits of other lines.
pub open spec fn kept_edits(e: Seq<EditView>, disabled: Set<usize>) -> Seq<EditView>
    decreases e.len(),
{
    if e.len() == 0 {
        Seq::empty()
    } else {
        let rest = kept_edits(e.drop_last(), disabled);
        if disabled.contains(e.last().line) {
            rest
        } else {
            rest.push(e.last())
        }
    }
}

/// Whether a disabled line is not the same in both texts.
pub open spec fn touched(b: Seq<Seq<char>>, a: Seq<Seq<char>>, disabled: Set<usize>) -> bool {
    exists|line: usize| #[trigger]
        disabled.contains(line) && line_differs(b, a, slot(line))
}

/// Whether line `i` differs, or only one of the texts has it.
pub open spec fn line_differs(b: Seq<Seq<char>>, a: Seq<Seq<char>>, i: int) -> bool {
    (i < b.len() || i < a.len()) && !(i < b.len() && i < a.len() && b[i] == a[i])
}

/// The new lines, with the old ones in the place of the disabled.
pub open spec fn mixed(
    b: Seq<Seq<char>>,
    a: Seq<Seq<char>>,
    disabled: Set<usize>,
) -> Seq<Seq<char>> {
    Seq::new(
        a.len(),
        |i: int|
            if i < b.len() && slot_disabled(disabled, i) {
                b[i]
            } else {
                a[i]
            },
    )
}

/// The policy that stands in the edits of a rollback.
pub open spec fn rollback_policy(kept: Seq<EditView>) -> Seq<char> {
    if kept.len() > 0 {
        kept[0].policy
    } else {
        "line_suppression_guard"@
    }
}

/// The text after the line edits of the lines that are not disabled: strictly
/// where they fit, else leniently.
pub open spec fn rolled_back_text(
    before: Seq<char>,
    after: Seq<char>,
    policy: Seq<char>,
    disabled: Set<usize>,
) -> Seq<char> {
    let filtered = kept_edits(edit_utils::synthesized(before, after, policy), disabled);
    match edit_utils::strict_text(before, filtered) {
        Some(adjusted) => adjusted,
        None => edit_utils::lenient_text(before, filtered),
    }
}

pub open spec fn full_rollback_warning() -> Seq<char> {
    "line suppression escalated to full rollback due non-local line edits"@
}

pub open spec fn partial_rollback_warning(count: nat) -> Seq<char> {
    "line suppression applied best-effort non-local rollback for "@ + text::decimal(count)
        + " blocked line(s)"@
}

/// A result without what it does to the disabled lines.
pub open spec fn suppressed(
    before: Seq<char>,
    r: ResultView,
    disabled: Set<usize>,
) -> ResultView {
    let violations = kept_violations(r.violations, disabled);
    let edits = kept_edits(r.edits, disabled);
    let b = line_text::lines_in(before);
    let a = line_text::lines_in(r.text);
    if disabled.len() == 0 {
        r
    } else if !touched(b, a, disabled) {
        ResultView { violations, edits, changed: true, ..r }
    } else if b.len() != a.len() {
        let policy = rollback_policy(edits);
        let adjusted = rolled_back_text(before, r.text, policy, disabled);
        let redone = edit_utils::synthesized(before, adjusted, policy);
        if names_disabled(redone, disabled) {
            ResultView {
                text: before,
                violations,
                edits: Seq::empty(),
                warnings: r.warnings.push(full_rollback_warning()),
                changed: false,
            }
        } else {
            ResultView {
                text: adjusted,
                violations,
                edits: redone,
                warnings: r.warnings.push(partial_rollback_warning(disabled.len())),
                changed: true,
            }
        }
    } else if edits.len() == 0 {
        ResultView { text: before, violations, edits, changed: false, ..r }
    } else {
        ResultView {
            text: line_text::concat(mixed(b, a, disabled)),
            violations,
            edits,
            changed: true,
            ..r
        }
    }
}

/// Whether one of the edits names a disabled line.
pub open spec fn names_disabled(e: Seq<EditView>, disabled: Set<usize>) -> bool {
    exists|k: int| 0 <= k < e.len() && disabled.contains((#[trigger] e[k]).line)
}

/// The violations on lines that are not disabled.
pub fn keep_violations(violations: &[Violation], disabled: &BTreeSet<usize>) -> (r: Vec<Violation>)
    ensures
        model::violation_views(r@) == kept_violations(
            model::violation_views(violations@),
            disabled@,
        ),
{
    let ghost all = model::violation_views(violations@);
    let mut r: Vec<Violation> = Vec::new();
    let mut i: usize = 0;
    assert(model::violation_views(r@) =~= Seq::empty());
    while i < violations.len()
        invariant
            all == model::violation_views(violations@),
            i <= violations@.len(),
            model::violation_views(r@) == kept_violations(all.take(i as int), disabled@),
        decreases violations@.len() - i,
    {
        let ghost was = model::violation_views(r@);
        let ghost next = all.take(i + 1);
        assert(next.drop_last() =~= all.take(i as int));
        assert(next.last() == violations@[i as int]@);
        if !disabled.contains(&violations[i].line) {
            let copy = violations[i].clone();
            r.push(copy);
            assert(model::violation_views(r@) =~= was.push(copy@));
        }
        i += 1;
    }
    assert(all.take(all.len() as int) =~= all);
    r
}

/// The edits of lines that are not disabled.
pub fn keep_edits(edits: &[Edit], disabled: &BTreeSet<usize>) -> (r: Vec<Edit>)
    ensures
        model::edit_views(r@) == kept_edits(model::edit_views(edits@), disabled@),
{
    let ghost all = model::edit_views(edits@);
    let mut r: Vec<Edit> = Vec::new();
    let mut i: usize = 0;
    assert(model::edit_views(r@) =~= Seq::empty());
    while i < edits.len()
        invariant
            all == model::edit_views(edits@),
            i <= edits@.len(),
            model::edit_views(r@) == kept_edits(all.take(i as int), disabled@),
        decreases edits@.len() - i,
    {
        let ghost was = model::edit_views(r@);
        let ghost next = all.take(i + 1);
        assert(next.drop_last() =~= all.take(i as int));
        assert(next.last() == edits@[i as int]@);
        if !disabled.contains(&edits[i].line) {
            let copy = edits[i].clone();
            r.push(copy);
            assert(model::edit_views(r@) =~= was.push(copy@));
        }
        i += 1;
    }
    assert(all.take(all.len() as int) =~= all);
    r
}

fn any_edit_disabled(edits: &[Edit], disabled: &BTreeSet<usize>) -> (r: bool)
    ensures
        r == names_disabled(model::edit_views(edits@), disabled@),
{
    let mut i: usize = 0;
    while i < edits.len()
        invariant
            i <= edits@.len(),
            forall|k: int|
                0 <= k < i ==> !disabled@.contains(
                    (#[trigger] model::edit_views(edits@)[k]).line,
                ),
        decreases edits@.len() - i,
    {
        assert(model::edit_views(edits@)[i as int] == edits@[i as int]@);
        if disabled.contains(&edits[i].line) {
            return true;
        }
        i += 1;
    }
    false
}

fn index_of_line(line: usize) -> (r: usize)
    ensures
        r == slot(line),
{
    if line == 0 {
        0
    } else {
        line - 1
    }
}

fn is_touched(before: &Vec<String>, after: &Vec<String>, disabled: &Vec<usize>) -> (r: bool)
    ensures
        r == touched(text::views(before@), text::views(after@), disabled@.to_set()),
{
    let ghost b = text::views(before@);
    let ghost a = text::views(after@);
    let mut i: usize = 0;
    while i < disabled.len()
        invariant
            b == text::views(before@),
            a == text::views(after@),
            i <= disabled@.len(),
            forall|k: int| 0 <= k < i ==> !line_differs(b, a, slot(#[trigger] disabled@[k])),
        decreases disabled@.len() - i,
    {
        let at = index_of_line(disabled[i]);
        let differs = if at < before.len() && at < after.len() {
            assert(b[at as int] == before@[at as int]@ && a[at as int] == after@[at as int]@);
            !str_eq(before[at].as_str(), after[at].as_str())
        } else {
            at < before.len() || at < after.len()
        };
        assert(differs == line_differs(b, a, at as int));
        if differs {
            assert(disabled@.to_set().contains(disabled@[i as int]));
            return true;
        }
        i += 1;
    }
    proof {
        if touched(b, a, disabled@.to_set()) {
            let line = choose|line: usize| #[trigger]
                disabled@.to_set().contains(line) && line_differs(b, a, slot(line));
            let k = choose|k: int| 0 <= k < disabled@.len() && disabled@[k] == line;
            assert(!line_differs(b, a, slot(disabled@[k])));
        }
    }
    false
}

/// Puts the old lines in the place of the disabled ones.
pub fn mix_lines(
    before: &Vec<String>,
    after: &Vec<String>,
    disabled: &Vec<usize>,
) -> (r: Vec<String>)
    ensures
        text::views(r@) == mixed(
            text::views(before@),
            text::views(after@),
            disabled@.to_set(),
        ),
{
    let ghost b = text::views(before@);
    let ghost a = text::views(after@);
    let mut r: Vec<String> = text::copy_strings(after.as_slice());
    assert(r@.len() == after@.len()) by {
        assert(text::views(r@).len() == text::views(after@).len());
    }
    let mut i: usize = 0;
    assert forall|x: int| 0 <= x < r@.len() implies (#[trigger] r@[x])@ == a[x] by {
        assert(text::views(r@)[x] == r@[x]@);
    }
    while i < disabled.len()
        invariant
            b == text::views(before@),
            a == text::views(after@),
            r@.len() == after@.len(),
            i <= disabled@.len(),
            forall|x: int|
                0 <= x < r@.len() ==> (#[trigger] r@[x])@ == if x < b.len() && hits(disabled@, i as int, x) {
                    b[x]
                } else {
                    a[x]
                },
        decreases disabled@.len() - i,
    {
        let at = index_of_line(disabled[i]);
        let ghost was = r@;
        if at < before.len() && at < r.len() {
            r.set(at, before[at].clone());
        }
        proof {
            assert forall|x: int| 0 <= x < r@.len() implies (#[trigger] r@[x])@ == if x < b.len() && hits(
                disabled@,
                i + 1,
                x,
            ) {
                b[x]
            } else {
                a[x]
            } by {
                assert(was[x]@ == if x < b.len() && hits(disabled@, i as int, x) {
                    b[x]
                } else {
                    a[x]
                });
                if hits(disabled@, i + 1, x) {
                    let k = choose|k: int|
                        0 <= k < i + 1 && slot(#[trigger] disabled@[k]) == x;
                    if k < i {
                        assert(hits(disabled@, i as int, x));
                    }
                }
                if hits(disabled@, i as int, x) {
                    let k = choose|k: int| 0 <= k < i && slot(#[trigger] disabled@[k]) == x;
                    assert(0 <= k < i + 1 && slot(disabled@[k]) == x);
                }
                if x == at {
                    assert(slot(disabled@[i as int]) == x);
                }
            }
        }
        i += 1;
    }
    proof {
        let set = disabled@.to_set();
        assert forall|x: int| 0 <= x < r@.len() implies text::views(r@)[x] == mixed(b, a, set)[x] by {
            assert(r@[x]@ == if x < b.len() && hits(disabled@, disabled@.len() as int, x) {
                b[x]
            } else {
                a[x]
            });
            if hits(disabled@, disabled@.len() as int, x) {
                let k = choose|k: int|
                    0 <= k < disabled@.len() && slot(#[trigger] disabled@[k]) == x;
                assert(set.contains(disabled@[k]));
            }
            if slot_disabled(set, x) {
                let line = choose|line: usize| #[trigger] set.contains(line) && slot(line) == x;
                let k = choose|k: int| 0 <= k < disabled@.len() && disabled@[k] == line;
                assert(slot(disabled@[k]) == x);
            }
        }
        assert(text::views(r@) =~= mixed(b, a, set));
    }
    r
}

/// Whether one of the first `n` disabled lines has the index `x`.
spec fn hits(disabled: Seq<usize>, n: int, x: int) -> bool {
    exists|k: int| 0 <= k < n && slot(#[trigger] disabled[k]) == x
}

/// Takes back what a result does to the disabled lines.
pub fn suppress_lines_impl(
    before_text: &str,
    result: PolicyResult,
    disabled_lines: &BTreeSet<usize>,
) -> (r: PolicyResult)
    ensures
        r@ == suppressed(before_text@, result@, disabled_lines@),
{
    let ghost start = result@;
    let disabled = lines_of(disabled_lines);
    proof {
        lines::lemma_listing_unique(disabled@, disabled_lines@);
    }
    if disabled_lines.len() == 0 {
        return result;
    }
    let mut result = result;
    let violations = keep_violations(result.violations.as_slice(), disabled_lines);
    let edits = keep_edits(result.edits.as_slice(), disabled_lines);
    let ghost kept = model::edit_views(edits@);
    assert(kept.len() == edits@.len());
    let before_lines = split_lines(before_text);
    let after_lines = split_lines(result.text.as_str());
    let ghost b = line_text::lines_in(before_text@);
    let ghost a = line_text::lines_in(start.text);
    assert(b.len() == before_lines@.len() && a.len() == after_lines@.len());
    if !is_touched(&before_lines, &after_lines, &disabled) {
        result.violations = violations;
        result.edits = edits;
        result.changed = true;
        assert(result@ =~= suppressed(before_text@, start, disabled_lines@));
        return result;
    }
    if before_lines.len() != after_lines.len() {
        let policy = if edits.len() > 0 {
            assert(kept[0] == edits@[0]@);
            edits[0].policy.as_str()
        } else {
            "line_suppression_guard"
        };
        let all = synthesize_line_edits(before_text, result.text.as_str(), policy);
        let filtered = keep_edits(all.as_slice(), disabled_lines);
        let adjusted = match apply_synthesized_edits(before_text, filtered.as_slice()) {
            Some(adjusted) => adjusted,
            None => apply_edits_lenient(before_text, filtered.as_slice()),
        };
        let redone = synthesize_line_edits(before_text, adjusted.as_str(), policy);
        result.violations = violations;
        if any_edit_disabled(redone.as_slice(), disabled_lines) {
            result.text = before_text.to_owned();
            result.edits = Vec::new();
            warn(
                &mut result.warnings,
                "line suppression escalated to full rollback due non-local line edits".to_owned(),
            );
            result.changed = false;
        } else {
            let mut message = "line suppression applied best-effort non-local rollback for "
                .to_owned();
            message.append(decimal_of(disabled_lines.len()).as_str());
            message.append(" blocked line(s)");
            result.text = adjusted;
            result.edits = redone;
            warn(&mut result.warnings, message);
            result.changed = true;
        }
        assert(result@ =~= suppressed(before_text@, start, disabled_lines@));
        return result;
    }
    if edits.len() == 0 {
        result.text = before_text.to_owned();
        result.violations = violations;
        result.edits = edits;
        result.changed = false;
        assert(result@ =~= suppressed(before_text@, start, disabled_lines@));
        return result;
    }
    let merged = mix_lines(&before_lines, &after_lines, &disabled);
    result.text = concat_lines(merged.as_slice());
    result.violations = violations;
    result.edits = edits;
    result.changed = true;
    assert(result@ =~= suppressed(before_text@, start, disabled_lines@));
    result
}

proof fn lemma_kept_edits(e: Seq<EditView>, disabled: Set<usize>)
    ensures
        !names_disabled(kept_edits(e, disabled), disabled),
    decreases e.len(),
{
    if e.len() > 0 {
        lemma_kept_edits(e.drop_last(), disabled);
        let rest = kept_edits(e.drop_last(), disabled);
        let now = kept_edits(e, disabled);
        assert forall|k: int| 0 <= k < now.len() implies !disabled.contains(
            (#[trigger] now[k]).line,
        ) by {
            if k < rest.len() {
                assert(now[k] == rest[k]);
            }
        }
    }
}

/// No edit of a suppressed result names a disabled line.
pub proof fn lemma_suppressed_edits(before: Seq<char>, r: ResultView, disabled: Set<usize>)
    requires
        disabled.len() > 0,
    ensures
        !names_disabled(suppressed(before, r, disabled).edits, disabled),
{
    lemma_kept_edits(r.edits, disabled);
}

/// Where the number of lines stays, each disabled line is afterwards what it
/// was before.
pub proof fn lemma_suppressed_lines(
    before: Seq<char>,
    r: ResultView,
    disabled: Set<usize>,
    line: usize,
)
    requires
        disabled.len() > 0,
        disabled.contains(line),
        line_text::lines_in(before).len() == line_text::lines_in(r.text).len(),
        slot(line) < line_text::lines_in(before).len(),
    ensures
        ({
            let after = line_text::lines_in(suppressed(before, r, disabled).text);
            &&& after.len() == line_text::lines_in(before).len()
            &&& after[slot(line)] == line_text::lines_in(before)[slot(line)]
        }),
{
    let b = line_text::lines_in(before);
    let a = line_text::lines_in(r.text);
    let m = mixed(b, a, disabled);
    line_text::lemma_lines_are_lines(before);
    line_text::lemma_lines_are_lines(r.text);
    assert forall|k: int| 0 <= k < m.len() implies line_text::is_line(#[trigger] m[k]) by {
        assert(line_text::is_line(b[k]) && line_text::is_line(a[k]));
    }
    assert forall|k: int| 0 <= k < m.len() - 1 implies (#[trigger] m[k]).last() == '\n' by {
        assert(b[k].last() == '\n' && a[k].last() == '\n');
    }
    line_text::lemma_concat_lines(m);
    assert(slot_disabled(disabled, slot(line)));
    if !touched(b, a, disabled) {
        assert(!line_differs(b, a, slot(line)));
    }
}

/// The lines that the edits change outside of the allowed ones.
pub open spec fn out_of_scope(e: Seq<EditView>, allowed: Set<usize>) -> Set<usize> {
    edit_utils::changed_lines(e).difference(allowed)
}

pub open spec fn rewrite_reverted_warning(
    stage: RetryScopeStage,
    policy: Seq<char>,
    dropped: nat,
) -> Seq<char> {
    "retry_scope("@ + stage.label() + ") reverted semantic rewrite for '"@ + policy
        + "' because "@ + text::decimal(dropped) + " out-of-scope line(s) were required"@
}

pub open spec fn scope_dropped_warning(
    stage: RetryScopeStage,
    policy: Seq<char>,
    dropped: nat,
) -> Seq<char> {
    "retry_scope("@ + stage.label() + ") dropped "@ + text::decimal(dropped)
        + " out-of-scope line(s) for '"@ + policy + "'"@
}

/// A result held to the lines that a retry may touch: a semantic rewrite that
/// needs other lines is reverted as a whole, any other result loses them.
pub open spec fn scoped(
    before: Seq<char>,
    r: ResultView,
    allowed: Option<Set<usize>>,
    policy: Seq<char>,
    stage: RetryScopeStage,
    semantic_rewrite: bool,
) -> ResultView {
    match allowed {
        None => r,
        Some(lines) => {
            let blocked = out_of_scope(r.edits, lines);
            if lines.len() == 0 || blocked.len() == 0 {
                r
            } else if semantic_rewrite {
                ResultView {
                    text: before,
                    edits: Seq::empty(),
                    warnings: r.warnings.push(
                        rewrite_reverted_warning(stage, policy, blocked.len()),
                    ),
                    ..r
                }
            } else {
                let kept = suppressed(before, r, blocked);
                ResultView {
                    warnings: kept.warnings.push(
                        scope_dropped_warning(stage, policy, blocked.len()),
                    ),
                    ..kept
                }
            }
        },
    }
}

/// The lines of one set that are not in another.
pub fn lines_outside(lines: &BTreeSet<usize>, other: &BTreeSet<usize>) -> (r: BTreeSet<usize>)
    ensures
        r@ == lines@.difference(other@),
{
    let list = lines_of(lines);
    let mut r: BTreeSet<usize> = BTreeSet::new();
    let mut i: usize = 0;
    while i < list.len()
        invariant
            i <= list@.len(),
            list@.to_set() == lines@,
            forall|x: usize|
                r@.contains(x) <==> !other@.contains(x) && exists|k: int|
                    0 <= k < i && #[trigger] list@[k] == x,
        decreases list@.len() - i,
    {
        let ghost was = r@;
        if !other.contains(&list[i]) {
            r.insert(list[i]);
        }
        proof {
            assert forall|x: usize|
                r@.contains(x) <==> !other@.contains(x) && exists|k: int|
                    0 <= k < i + 1 && #[trigger] list@[k] == x by {
                if was.contains(x) {
                    let k = choose|k: int| 0 <= k < i && #[trigger] list@[k] == x;
                    assert(0 <= k < i + 1 && list@[k] == x);
                }
                if x == list@[i as int] {
                    assert(0 <= i < i + 1 && list@[i as int] == x);
                }
                if exists|k: int| 0 <= k < i + 1 && #[trigger] list@[k] == x {
                    let k = choose|k: int| 0 <= k < i + 1 && #[trigger] list@[k] == x;
                    if k < i {
                        assert(0 <= k < i && list@[k] == x);
                    }
                }
            }
        }
        i += 1;
    }
    proof {
        assert forall|x: usize| r@.contains(x) <==> lines@.difference(other@).contains(x) by {
            if r@.contains(x) {
                let k = choose|k: int| 0 <= k < list@.len() && #[trigger] list@[k] == x;
                assert(list@.to_set().contains(list@[k]));
            }
            if lines@.contains(x) {
                assert(list@.to_set().contains(x));
                let k = choose|k: int| 0 <= k < list@.len() && list@[k] == x;
                assert(0 <= k < list@.len() && list@[k] == x);
            }
        }
        assert(r@ =~= lines@.difference(other@));
    }
    r
}

/// Holds a result to the lines that a retry may touch.
pub fn apply_scope_filter(
    before_text: &str,
    result: PolicyResult,
    allowed_lines: Option<&BTreeSet<usize>>,
    policy_name: &str,
    scope_stage: RetryScopeStage,
    capability: &PolicyCapabilities,
) -> (r: PolicyResult)
    ensures
        r@ == scoped(
            before_text@,
            result@,
            match allowed_lines {
                Some(lines) => Some(lines@),
                None => None,
            },
            policy_name@,
            scope_stage,
            capability.semantic_rewrite,
        ),
{
    let ghost start = result@;
    let allowed = match allowed_lines {
        None => {
            return result;
        },
        Some(allowed) => allowed,
    };
    let changed = edit_utils::edit_lines(result.edits.as_slice());
    let blocked = lines_outside(&changed, allowed);
    if allowed.len() == 0 || blocked.len() == 0 {
        return result;
    }
    let dropped: usize = blocked.len();
    if capability.semantic_rewrite {
        let mut reverted = result;
        let mut message = "retry_scope(".to_owned();
        message.append(scope_stage.as_str());
        message.append(") reverted semantic rewrite for '");
        message.append(policy_name);
        message.append("' because ");
        message.append(decimal_of(dropped).as_str());
        message.append(" out-of-scope line(s) were required");
        reverted.text = before_text.to_owned();
        reverted.edits = Vec::new();
        warn(&mut reverted.warnings, message);
        assert(reverted@ =~= scoped(
            before_text@,
            start,
            Some(allowed@),
            policy_name@,
            scope_stage,
            true,
        ));
        return reverted;
    }
    let mut filtered = suppress_lines_impl(before_text, result, &blocked);
    let mut message = "retry_scope(".to_owned();
    message.append(scope_stage.as_str());
    message.append(") dropped ");
    message.append(decimal_of(dropped).as_str());
    message.append(" out-of-scope line(s) for '");
    message.append(policy_name);
    message.append("'");
    let ghost kept = filtered@;
    warn(&mut filtered.warnings, message);
    assert(filtered@ =~= ResultView {
        warnings: kept.warnings.push(message@),
        ..kept
    });
    filtered
}

/// A scoped result edits no line out of scope, unless the list of allowed lines
/// is empty and so names no scope.
pub proof fn lemma_scoped_edits(
    before: Seq<char>,
    r: ResultView,
    allowed: Set<usize>,
    policy: Seq<char>,
    stage: RetryScopeStage,
    semantic_rewrite: bool,
    line: usize,
)
    requires
        allowed.len() > 0,
        out_of_scope(r.edits, allowed).finite(),
        out_of_scope(r.edits, allowed).contains(line),
    ensures
        !names_disabled(
            scoped(before, r, Some(allowed), policy, stage, semantic_rewrite).edits,
            set![line],
        ),
{
    let blocked = out_of_scope(r.edits, allowed);
    assert(blocked.len() > 0) by {
        if blocked.len() == 0 {
            assert(blocked =~= Set::empty());
        }
    }
    if !semantic_rewrite {
        lemma_suppressed_edits(before, r, blocked);
        let edits = suppressed(before, r, blocked).edits;
        assert forall|k: int| 0 <= k < edits.len() implies !set![line].contains(
            (#[trigger] edits[k]).line,
        ) by {
            assert(!blocked.contains(edits[k].line));
        }
    }
}

/// The edits that stay are those of lines that are not disabled, in their
/// order.
pub proof fn lemma_kept_edits_exactly(e: Seq<EditView>, disabled: Set<usize>, x: EditView)
    ensures
        kept_edits(e, disabled).contains(x) <==> e.contains(x) && !disabled.contains(x.line),
        kept_edits(e, disabled).len() <= e.len(),
        kept_edits(e, disabled).contains(x) ==> kept_edits(e, disabled).len() > 0,
    decreases e.len(),
{
    if e.len() > 0 {
        let head = e.drop_last();
        let rest = kept_edits(head, disabled);
        let all = kept_edits(e, disabled);
        lemma_kept_edits_exactly(head, disabled, x);
        if head.contains(x) {
            let k = choose|k: int| 0 <= k < head.len() && head[k] == x;
            assert(e[k] == x);
        }
        if e.contains(x) {
            let k = choose|k: int| 0 <= k < e.len() && e[k] == x;
            if k < head.len() {
                assert(head[k] == x);
            } else if !disabled.contains(x.line) {
                assert(all[rest.len() as int] == x);
            }
        }
        if rest.contains(x) {
            let k = choose|k: int| 0 <= k < rest.len() && rest[k] == x;
            assert(all[k] == x);
        }
        if all.contains(x) {
            let k = choose|k: int| 0 <= k < all.len() && all[k] == x;
            if k < rest.len() {
                assert(rest[k] == x);
            } else {
                assert(e[e.len() - 1] == x);
            }
        }
    }
}

/// The violations that stay are those on lines that are not disabled.
pub proof fn lemma_kept_violations_exactly(
    v: Seq<ViolationView>,
    disabled: Set<usize>,
    x: ViolationView,
)
    ensures
        kept_violations(v, disabled).contains(x) <==> v.contains(x) && !disabled.contains(x.line),
    decreases v.len(),
{
    if v.len() > 0 {
        let head = v.drop_last();
        let rest = kept_violations(head, disabled);
        let all = kept_violations(v, disabled);
        lemma_kept_violations_exactly(head, disabled, x);
        if head.contains(x) {
            let k = choose|k: int| 0 <= k < head.len() && head[k] == x;
            assert(v[k] == x);
        }
        if v.contains(x) {
            let k = choose|k: int| 0 <= k < v.len() && v[k] == x;
            if k < head.len() {
                assert(head[k] == x);
            } else if !disabled.contains(x.line) {
                assert(all[rest.len() as int] == x);
            }
        }
        if rest.contains(x) {
            let k = choose|k: int| 0 <= k < rest.len() && rest[k] == x;
            assert(all[k] == x);
        }
        if all.contains(x) {
            let k = choose|k: int| 0 <= k < all.len() && all[k] == x;
            if k < rest.len() {
                assert(rest[k] == x);
            } else {
                assert(v[v.len() - 1] == x);
            }
        }
    }
}

/// Where the number of lines stays, a suppressed result keeps exactly the edits
/// and the violations of the other lines, and each other line stays as the
/// policy left it while an edit is left.
pub proof fn lemma_suppression_spares_other_lines(
    before: Seq<char>,
    r: ResultView,
    disabled: Set<usize>,
    e: EditView,
    v: ViolationView,
    i: int,
)
    requires
        disabled.len() > 0,
        line_text::lines_in(before).len() == line_text::lines_in(r.text).len(),
        0 <= i < line_text::lines_in(before).len(),
        forall|line: usize| #[trigger] disabled.contains(line) ==> line != i + 1 && !(line == 0
            && i == 0),
    ensures
        ({
            let s = suppressed(before, r, disabled);
            &&& s.edits.contains(e) <==> r.edits.contains(e) && !disabled.contains(e.line)
            &&& s.violations.contains(v) <==> r.violations.contains(v) && !disabled.contains(
                v.line,
            )
            &&& s.edits.len() > 0 ==> line_text::lines_in(s.text)[i] == line_text::lines_in(
                r.text,
            )[i]
            &&& s.warnings == r.warnings
        }),
{
    let b = line_text::lines_in(before);
    let a = line_text::lines_in(r.text);
    let m = mixed(b, a, disabled);
    lemma_kept_edits_exactly(r.edits, disabled, e);
    lemma_kept_violations_exactly(r.violations, disabled, v);
    line_text::lemma_lines_are_lines(before);
    line_text::lemma_lines_are_lines(r.text);
    assert forall|k: int| 0 <= k < m.len() implies line_text::is_line(#[trigger] m[k]) by {
        assert(line_text::is_line(b[k]) && line_text::is_line(a[k]));
    }
    assert forall|k: int| 0 <= k < m.len() - 1 implies (#[trigger] m[k]).last() == '\n' by {
        assert(b[k].last() == '\n' && a[k].last() == '\n');
    }
    line_text::lemma_concat_lines(m);
    assert(!slot_disabled(disabled, i));
}

/// With nothing disabled, nothing is taken from a result.
pub proof fn lemma_nothing_disabled(before: Seq<char>, r: ResultView)
    ensures
        suppressed(before, r, Set::empty()) == r,
{
}

/// A retry holds a policy to its lines. A rewrite of symbols that changes
/// another line is taken back whole. Of any other policy an edit stays, where
/// the number of lines does, exactly if its line is one of the allowed, or is
/// not changed.
pub proof fn lemma_retry_keeps_to_its_lines(
    before: Seq<char>,
    r: ResultView,
    allowed: Set<usize>,
    policy: Seq<char>,
    stage: RetryScopeStage,
    e: EditView,
    k: int,
)
    requires
        allowed.len() > 0,
        0 <= k < r.edits.len(),
        r.edits[k].line > 0,
        r.edits[k].before != r.edits[k].after,
        !allowed.contains(r.edits[k].line),
    ensures
        ({
            let whole = scoped(before, r, Some(allowed), policy, stage, true);
            let part = scoped(before, r, Some(allowed), policy, stage, false);
            let strays = !allowed.contains(e.line) && exists|m: int|
                0 <= m < r.edits.len() && (#[trigger] r.edits[m]).line == e.line && e.line > 0
                    && r.edits[m].before != r.edits[m].after;
            &&& whole.text == before && whole.edits.len() == 0
            &&& line_text::lines_in(before).len() == line_text::lines_in(r.text).len() ==> (
            part.edits.contains(e) <==> r.edits.contains(e) && !strays)
            &&& scoped(before, r, None, policy, stage, true) == r
            &&& scoped(before, r, None, policy, stage, false) == r
        }),
{
    let blocked = out_of_scope(r.edits, allowed);
    assert(r.edits[k].changes());
    assert(edit_utils::changed_lines(r.edits).contains(r.edits[k].line));
    assert(blocked.contains(r.edits[k].line));
    let all = r.edits.map_values(|x: EditView| x.line);
    vstd::seq_lib::seq_to_set_is_finite(all);
    assert forall|line: usize| blocked.contains(line) implies all.to_set().contains(line) by {
        let m = choose|m: int|
            0 <= m < r.edits.len() && (#[trigger] r.edits[m]).changes() && r.edits[m].line == line;
        assert(all[m] == line);
    }
    assert(blocked.subset_of(all.to_set()));
    vstd::set_lib::lemma_len_subset(blocked, all.to_set());
    assert(blocked.len() > 0);
    lemma_kept_edits_exactly(r.edits, blocked, e);
    if exists|m: int|
        0 <= m < r.edits.len() && (#[trigger] r.edits[m]).line == e.line && e.line > 0
            && r.edits[m].before != r.edits[m].after {
        let m = choose|m: int|
            0 <= m < r.edits.len() && (#[trigger] r.edits[m]).line == e.line && e.line > 0
                && r.edits[m].before != r.edits[m].after;
        assert(r.edits[m].changes());
    }
    if edit_utils::changed_lines(r.edits).contains(e.line) {
        let m = choose|m: int|
            0 <= m < r.edits.len() && (#[trigger] r.edits[m]).changes() && r.edits[m].line
                == e.line;
        assert(r.edits[m].line == e.line && e.line > 0);
    }
}

} // verus!
