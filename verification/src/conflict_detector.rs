//! Reports policies that work against each other.
use vstd::prelude::*;

use crate::model;
use crate::model::{Edit, EditView, Violation, ViolationView};
use crate::text;
use crate::text::{add_name, decimal_of, join, str_eq};

verus! {

/// A revert that was reported: the line, and both policies.
#[derive(Debug)]
pub struct RevertKey {
    pub line: usize,
    pub earlier: String,
    pub later: String,
}

/// A crowded line that was reported, with its policies.
#[derive(Debug)]
pub struct TouchKey {
    pub line: usize,
    pub policies: String,
}

/// What the detector remembers.
#[verifier::ext_equal]
pub ghost struct DetectorView {
    pub enabled: bool,
    /// How many policies make a line crowded.
    pub threshold: int,
    /// The edits that name a line, in the order in which they came.
    pub history: Seq<EditView>,
    pub reverts: Seq<(usize, Seq<char>, Seq<char>)>,
    pub touches: Seq<(usize, Seq<char>)>,
}

/// Watches the edits of one policy after the other.
pub struct PolicyConflictDetector {
    enabled: bool,
    touch_threshold: usize,
    history: Vec<Edit>,
    reported_reverts: Vec<RevertKey>,
    reported_touches: Vec<TouchKey>,
}

spec fn revert_views(keys: Seq<RevertKey>) -> Seq<(usize, Seq<char>, Seq<char>)> {
    keys.map_values(|k: RevertKey| (k.line, k.earlier@, k.later@))
}

spec fn touch_views(keys: Seq<TouchKey>) -> Seq<(usize, Seq<char>)> {
    keys.map_values(|k: TouchKey| (k.line, k.policies@))
}

impl View for PolicyConflictDetector {
    type V = DetectorView;

    closed spec fn view(&self) -> DetectorView {
        DetectorView {
            enabled: self.enabled,
            threshold: self.touch_threshold as int,
            history: model::edit_views(self.history@),
            reverts: revert_views(self.reported_reverts@),
            touches: touch_views(self.reported_touches@),
        }
    }
}

/// The last edit of a line.
pub open spec fn last_on(history: Seq<EditView>, line: usize) -> Option<EditView>
    decreases history.len(),
{
    if history.len() == 0 {
        None
    } else if history.last().line == line {
        Some(history.last())
    } else {
        last_on(history.drop_last(), line)
    }
}

/// The policies that edited a line, each once and in order.
pub open spec fn policies_on(history: Seq<EditView>, line: usize) -> Seq<Seq<char>>
    decreases history.len(),
{
    if history.len() == 0 {
        Seq::empty()
    } else {
        let rest = policies_on(history.drop_last(), line);
        if history.last().line == line {
            text::insert_name(rest, history.last().policy)
        } else {
            rest
        }
    }
}

/// Whether an edit takes back what another policy did last.
pub open spec fn takes_back(e: EditView, policy: Seq<char>, previous: EditView) -> bool {
    previous.policy != policy && e.after == previous.before && e.before == previous.after
}

pub open spec fn detector_violation(message: Seq<char>, line: usize) -> ViolationView {
    ViolationView { policy: "policy_conflict_detector"@, message, line, column: Some(1usize) }
}

pub open spec fn revert_message(line: usize, later: Seq<char>, earlier: Seq<char>) -> Seq<char> {
    "Line "@ + text::decimal(line as nat) + ": policy '"@ + later + "' appears to revert policy '"@
        + earlier + "'"@
}

pub open spec fn touch_message(line: usize, names: Seq<Seq<char>>) -> Seq<char> {
    "Line "@ + text::decimal(line as nat) + ": touched by multiple policies ("@ + text::joined(
        names,
        ", "@,
    ) + "), verify style rule compatibility"@
}

/// One edit: a revert of another policy's last edit is reported once for each
/// pair of policies, a line that many policies touch once for each set of
/// them.
pub open spec fn observed_one(
    state: DetectorView,
    policy: Seq<char>,
    e: EditView,
) -> (DetectorView, Seq<ViolationView>) {
    if e.line == 0 {
        (state, Seq::empty())
    } else {
        let remembered = state.history.push(e);
        match last_on(state.history, e.line) {
            None => (DetectorView { history: remembered, ..state }, Seq::empty()),
            Some(previous) => {
                let revert = (e.line, previous.policy, policy);
                let reverts = takes_back(e, policy, previous) && !state.reverts.contains(revert);
                let names = text::insert_name(policies_on(state.history, e.line), policy);
                let touch = (e.line, text::joined(names, "|"@));
                let touches = names.len() >= state.threshold && !state.touches.contains(touch);
                let first = if reverts {
                    seq![
                        detector_violation(
                            revert_message(e.line, policy, previous.policy),
                            e.line,
                        ),
                    ]
                } else {
                    Seq::empty()
                };
                (
                    DetectorView {
                        history: remembered,
                        reverts: if reverts {
                            state.reverts.push(revert)
                        } else {
                            state.reverts
                        },
                        touches: if touches {
                            state.touches.push(touch)
                        } else {
                            state.touches
                        },
                        ..state
                    },
                    if touches {
                        first.push(detector_violation(touch_message(e.line, names), e.line))
                    } else {
                        first
                    },
                )
            },
        }
    }
}

/// The first `n` edits, one after the other.
pub open spec fn observed(
    state: DetectorView,
    policy: Seq<char>,
    edits: Seq<EditView>,
    n: int,
) -> (DetectorView, Seq<ViolationView>)
    decreases n,
{
    if n <= 0 {
        (state, Seq::empty())
    } else {
        let (before, found) = observed(state, policy, edits, n - 1);
        let (after, more) = observed_one(before, policy, edits[n - 1]);
        (after, found + more)
    }
}

impl PolicyConflictDetector {
    pub fn new(enabled: bool, touch_threshold: usize) -> (r: PolicyConflictDetector)
        ensures
            r@ == (DetectorView {
                enabled,
                threshold: if touch_threshold < 2 {
                    2
                } else {
                    touch_threshold as int
                },
                history: Seq::empty(),
                reverts: Seq::empty(),
                touches: Seq::empty(),
            }),
    {
        let r = PolicyConflictDetector {
            enabled,
            touch_threshold: if touch_threshold < 2 {
                2
            } else {
                touch_threshold
            },
            history: Vec::new(),
            reported_reverts: Vec::new(),
            reported_touches: Vec::new(),
        };
        assert(r@ =~= DetectorView {
            enabled,
            threshold: r.touch_threshold as int,
            history: Seq::empty(),
            reverts: Seq::empty(),
            touches: Seq::empty(),
        });
        r
    }

    fn last_edit_on(&self, line: usize) -> (r: Option<usize>)
        ensures
            match r {
                Some(k) => k < self.history@.len() && last_on(self@.history, line) == Some(
                    self.history@[k as int]@,
                ),
                None => last_on(self@.history, line) is None,
            },
    {
        let ghost all = self@.history;
        let mut i: usize = self.history.len();
        assert(all.take(all.len() as int) =~= all);
        while i > 0
            invariant
                all == model::edit_views(self.history@),
                i <= self.history@.len(),
                last_on(all, line) == last_on(all.take(i as int), line),
            decreases i,
        {
            let ghost head = all.take(i as int);
            assert(head.last() == self.history@[i - 1]@);
            assert(head.drop_last() =~= all.take(i - 1));
            if self.history[i - 1].line == line {
                return Some(i - 1);
            }
            i -= 1;
        }
        None
    }

    fn names_on(&self, line: usize, policy_name: &str) -> (r: Vec<String>)
        ensures
            text::views(r@) == text::insert_name(
                policies_on(self@.history, line),
                policy_name@,
            ),
    {
        let ghost all = self@.history;
        let mut r: Vec<String> = Vec::new();
        let mut i: usize = 0;
        assert(text::views(r@) =~= Seq::empty());
        while i < self.history.len()
            invariant
                all == model::edit_views(self.history@),
                i <= self.history@.len(),
                text::views(r@) == policies_on(all.take(i as int), line),
            decreases self.history@.len() - i,
        {
            let ghost next = all.take(i + 1);
            assert(next.drop_last() =~= all.take(i as int));
            assert(next.last() == self.history@[i as int]@);
            if self.history[i].line == line {
                add_name(&mut r, self.history[i].policy.as_str());
            }
            i += 1;
        }
        assert(all.take(all.len() as int) =~= all);
        add_name(&mut r, policy_name);
        r
    }

    fn revert_known(&self, line: usize, earlier: &str, later: &str) -> (r: bool)
        ensures
            r == self@.reverts.contains((line, earlier@, later@)),
    {
        let ghost all = self@.reverts;
        let mut i: usize = 0;
        while i < self.reported_reverts.len()
            invariant
                all == revert_views(self.reported_reverts@),
                i <= all.len(),
                forall|k: int| 0 <= k < i ==> #[trigger] all[k] != (line, earlier@, later@),
            decreases all.len() - i,
        {
            let key = &self.reported_reverts[i];
            assert(all[i as int] == (key.line, key.earlier@, key.later@));
            if key.line == line && str_eq(key.earlier.as_str(), earlier) && str_eq(
                key.later.as_str(),
                later,
            ) {
                return true;
            }
            i += 1;
        }
        false
    }

    fn touch_known(&self, line: usize, policies: &str) -> (r: bool)
        ensures
            r == self@.touches.contains((line, policies@)),
    {
        let ghost all = self@.touches;
        let mut i: usize = 0;
        while i < self.reported_touches.len()
            invariant
                all == touch_views(self.reported_touches@),
                i <= all.len(),
                forall|k: int| 0 <= k < i ==> #[trigger] all[k] != (line, policies@),
            decreases all.len() - i,
        {
            let key = &self.reported_touches[i];
            assert(all[i as int] == (key.line, key.policies@));
            if key.line == line && str_eq(key.policies.as_str(), policies) {
                return true;
            }
            i += 1;
        }
        false
    }

    fn push_violation(violations: &mut Vec<Violation>, message: String, line: usize)
        ensures
            model::violation_views(final(violations)@) == model::violation_views(
                old(violations)@,
            ).push(detector_violation(message@, line)),
    {
        let ghost was = violations@;
        let violation = Violation {
            policy: "policy_conflict_detector".to_owned(),
            message,
            line,
            column: Some(1),
        };
        let ghost view = violation@;
        violations.push(violation);
        assert(model::violation_views(violations@) =~= model::violation_views(was).push(view));
    }

    /// Takes in one edit, and adds to `violations` what it gives rise to.
    fn observe_one(&mut self, policy_name: &str, edit: &Edit, violations: &mut Vec<Violation>)
        ensures
            ({
                let (after, more) = observed_one(
                    old(self)@,
                    policy_name@,
                    edit@,
                );
                &&& final(self)@ == after
                &&& model::violation_views(final(violations)@) == model::violation_views(
                    old(violations)@,
                ) + more
            }),
    {
        let ghost state = self@;
        let ghost start = model::violation_views(violations@);
        if edit.line == 0 {
            assert(start + Seq::<ViolationView>::empty() =~= start);
            return ;
        }
        match self.last_edit_on(edit.line) {
            None => {
                assert(start + Seq::<ViolationView>::empty() =~= start);
            },
            Some(k) => {
                let earlier = self.history[k].policy.clone();
                let reverts = !str_eq(earlier.as_str(), policy_name) && str_eq(
                    edit.after.as_str(),
                    self.history[k].before.as_str(),
                ) && str_eq(edit.before.as_str(), self.history[k].after.as_str());
                let names = self.names_on(edit.line, policy_name);
                let ghost wanted = text::views(names@);
                assert(wanted.len() == names@.len());
                if reverts && !self.revert_known(edit.line, earlier.as_str(), policy_name) {
                    let mut message = "Line ".to_owned();
                    message.append(decimal_of(edit.line).as_str());
                    message.append(": policy '");
                    message.append(policy_name);
                    message.append("' appears to revert policy '");
                    message.append(earlier.as_str());
                    message.append("'");
                    Self::push_violation(violations, message, edit.line);
                    let key = RevertKey {
                        line: edit.line,
                        earlier,
                        later: policy_name.to_owned(),
                    };
                    let ghost was = self.reported_reverts@;
                    self.reported_reverts.push(key);
                    assert(revert_views(self.reported_reverts@) =~= revert_views(was).push(
                        (key.line, key.earlier@, key.later@),
                    ));
                }
                if names.len() >= self.touch_threshold {
                    let joined = join(names.as_slice(), "|");
                    if !self.touch_known(edit.line, joined.as_str()) {
                        let mut message = "Line ".to_owned();
                        message.append(decimal_of(edit.line).as_str());
                        message.append(": touched by multiple policies (");
                        message.append(join(names.as_slice(), ", ").as_str());
                        message.append("), verify style rule compatibility");
                        Self::push_violation(violations, message, edit.line);
                        let key = TouchKey { line: edit.line, policies: joined };
                        let ghost was = self.reported_touches@;
                        self.reported_touches.push(key);
                        assert(touch_views(self.reported_touches@) =~= touch_views(was).push(
                            (key.line, key.policies@),
                        ));
                    }
                }
            },
        }
        let copy = edit.clone();
        let ghost was = self.history@;
        self.history.push(copy);
        proof {
            assert(model::edit_views(self.history@) =~= model::edit_views(was).push(edit@));
            let (after, more) = observed_one(state, policy_name@, edit@);
            assert(self@ =~= after);
            assert(model::violation_views(violations@) =~= start + more);
        }
    }

    /// Takes in the edits of a policy, and reports what it works against.
    pub fn observe(&mut self, policy_name: &str, edits: &[Edit]) -> (r: Vec<Violation>)
        ensures
            !old(self)@.enabled ==> r@.len() == 0 && final(self)@ == old(self)@,
            old(self)@.enabled ==> ({
                let (after, found) = observed(
                    old(self)@,
                    policy_name@,
                    model::edit_views(edits@),
                    edits@.len() as int,
                );
                &&& final(self)@ == after
                &&& model::violation_views(r@) == found
            }),
    {
        let mut violations: Vec<Violation> = Vec::new();
        assert(model::violation_views(violations@) =~= Seq::empty());
        if !self.enabled {
            return violations;
        }
        let ghost state = self@;
        let ghost all = model::edit_views(edits@);
        let mut i: usize = 0;
        while i < edits.len()
            invariant
                all == model::edit_views(edits@),
                i <= edits@.len(),
                (self@, model::violation_views(violations@)) == observed(
                    state,
                    policy_name@,
                    all,
                    i as int,
                ),
            decreases edits@.len() - i,
        {
            assert(all[i as int] == edits@[i as int]@);
            self.observe_one(policy_name, &edits[i], &mut violations);
            i += 1;
        }
        violations
    }
}

/// Watching leaves the switch and the threshold as they are.
pub proof fn lemma_settings_stay(
    state: DetectorView,
    policy: Seq<char>,
    edits: Seq<EditView>,
    n: int,
)
    ensures
        observed(state, policy, edits, n).0.enabled == state.enabled,
        observed(state, policy, edits, n).0.threshold == state.threshold,
    decreases n,
{
    if n > 0 {
        lemma_settings_stay(state, policy, edits, n - 1);
    }
}

/// The first edit of a line is never reported.
pub proof fn lemma_first_edit_is_quiet(
    state: DetectorView,
    policy: Seq<char>,
    e: EditView,
)
    requires
        last_on(state.history, e.line) is None,
    ensures
        observed_one(state, policy, e).1.len() == 0,
{
}

/// A revert between the same two policies on one line is reported once only.
pub proof fn lemma_revert_reported_once(
    state: DetectorView,
    policy: Seq<char>,
    e: EditView,
    previous: EditView,
)
    requires
        e.line > 0,
        last_on(state.history, e.line) == Some(previous),
        takes_back(e, policy, previous),
    ensures
        observed_one(state, policy, e).0.reverts.contains(
            (e.line, previous.policy, policy),
        ),
        state.reverts.contains((e.line, previous.policy, policy)) ==> observed_one(
            state,
            policy,
            e,
        ).0.reverts == state.reverts,
{
    let key = (e.line, previous.policy, policy);
    if !state.reverts.contains(key) {
        assert(state.reverts.push(key)[state.reverts.len() as int] == key);
    }
}

proof fn lemma_last_on(history: Seq<EditView>, line: usize, k: int)
    requires
        0 <= k < history.len(),
        history[k].line == line,
        forall|m: int| k < m < history.len() ==> (#[trigger] history[m]).line != line,
    ensures
        last_on(history, line) == Some(history[k]),
    decreases history.len(),
{
    if k < history.len() - 1 {
        let head = history.drop_last();
        assert(history[history.len() - 1].line != line);
        assert forall|m: int| k < m < head.len() implies (#[trigger] head[m]).line != line by {
            assert(head[m] == history[m]);
        }
        lemma_last_on(head, line, k);
    }
}

proof fn lemma_none_on(history: Seq<EditView>, line: usize)
    requires
        forall|m: int| 0 <= m < history.len() ==> (#[trigger] history[m]).line != line,
    ensures
        last_on(history, line) is None,
    decreases history.len(),
{
    if history.len() > 0 {
        let head = history.drop_last();
        assert(history[history.len() - 1].line != line);
        assert forall|m: int| 0 <= m < head.len() implies (#[trigger] head[m]).line != line by {
            assert(head[m] == history[m]);
        }
        lemma_none_on(head, line);
    }
}

proof fn lemma_insert_name_holds(names: Seq<Seq<char>>, name: Seq<char>, other: Seq<char>)
    ensures
        text::insert_name(names, name).contains(other) <==> names.contains(other) || other == name,
    decreases names.len(),
{
    let all = text::insert_name(names, name);
    if names.len() == 0 {
        assert(all[0] == name);
    } else if names.last() == name {
        assert(names[names.len() - 1] == name);
    } else if text::name_less(names.last(), name) {
        assert(all[names.len() as int] == name);
        if names.contains(other) {
            let k = choose|k: int| 0 <= k < names.len() && names[k] == other;
            assert(all[k] == other);
        }
        if all.contains(other) && other != name {
            let k = choose|k: int| 0 <= k < all.len() && all[k] == other;
            assert(names[k] == other);
        }
    } else {
        let head = names.drop_last();
        let rest = text::insert_name(head, name);
        lemma_insert_name_holds(head, name, other);
        assert(all == rest.push(names.last()));
        if head.contains(other) {
            let k = choose|k: int| 0 <= k < head.len() && head[k] == other;
            assert(names[k] == other);
        }
        if names.contains(other) {
            let k = choose|k: int| 0 <= k < names.len() && names[k] == other;
            if k < head.len() {
                assert(head[k] == other);
            } else {
                assert(all[rest.len() as int] == other);
            }
        }
        if rest.contains(other) {
            let k = choose|k: int| 0 <= k < rest.len() && rest[k] == other;
            assert(all[k] == other);
        }
        if all.contains(other) {
            let k = choose|k: int| 0 <= k < all.len() && all[k] == other;
            if k < rest.len() {
                assert(rest[k] == other);
            } else {
                assert(names[names.len() - 1] == other);
            }
        }
    }
}

proof fn lemma_policies_on(history: Seq<EditView>, line: usize, name: Seq<char>)
    ensures
        policies_on(history, line).contains(name) <==> exists|k: int|
            0 <= k < history.len() && (#[trigger] history[k]).line == line && history[k].policy
                == name,
    decreases history.len(),
{
    if history.len() > 0 {
        let head = history.drop_last();
        lemma_policies_on(head, line, name);
        lemma_insert_name_holds(policies_on(head, line), history.last().policy, name);
        assert(history.last() == history[history.len() - 1]);
        if exists|k: int|
            0 <= k < head.len() && (#[trigger] head[k]).line == line && head[k].policy == name {
            let k = choose|k: int|
                0 <= k < head.len() && (#[trigger] head[k]).line == line && head[k].policy == name;
            assert(history[k].line == line && history[k].policy == name);
        }
        if exists|k: int|
            0 <= k < history.len() && (#[trigger] history[k]).line == line && history[k].policy
                == name {
            let k = choose|k: int|
                0 <= k < history.len() && (#[trigger] history[k]).line == line
                    && history[k].policy == name;
            if k < head.len() {
                assert(head[k].line == line && head[k].policy == name);
            }
        }
    }
}

/// An edit that turns a line back to what it was before another policy's edit,
/// which is the last one of the line, is reported on its line, unless this was
/// reported before.
pub proof fn lemma_reverts_are_reported(
    state: DetectorView,
    policy: Seq<char>,
    e: EditView,
    k: int,
)
    requires
        e.line > 0,
        0 <= k < state.history.len(),
        state.history[k].line == e.line,
        forall|m: int| k < m < state.history.len() ==> (#[trigger] state.history[m]).line != e.line,
        state.history[k].policy != policy,
        e.after == state.history[k].before,
        e.before == state.history[k].after,
        !state.reverts.contains((e.line, state.history[k].policy, policy)),
    ensures
        observed_one(state, policy, e).1.len() > 0,
        observed_one(state, policy, e).1[0].line == e.line,
        observed_one(state, policy, e).1[0].message == "Line "@ + text::decimal(e.line as nat)
            + ": policy '"@ + policy + "' appears to revert policy '"@ + state.history[k].policy
            + "'"@,
{
    lemma_last_on(state.history, e.line, k);
}

/// Where two policies already make a line crowded, an edit of a line that
/// another policy edited is reported, unless that was reported of the line
/// before; and a line that only one policy edits is never reported.
pub proof fn lemma_crowds_are_reported(
    state: DetectorView,
    policy: Seq<char>,
    e: EditView,
    k: int,
)
    requires
        e.line > 0,
        state.threshold >= 2,
    ensures
        state.threshold == 2 && 0 <= k < state.history.len() && state.history[k].line == e.line
            && state.history[k].policy != policy && (forall|names: Seq<char>|
            !(#[trigger] state.touches.contains((e.line, names)))) ==> observed_one(
            state,
            policy,
            e,
        ).1.len() > 0 && observed_one(state, policy, e).1.last().line == e.line,
        (forall|m: int|
            0 <= m < state.history.len() && (#[trigger] state.history[m]).line == e.line
                ==> state.history[m].policy == policy) ==> observed_one(state, policy, e).1.len()
            == 0,
        observed_one(state, policy, e).0.history == state.history.push(e),
{
    let names = text::insert_name(policies_on(state.history, e.line), policy);
    if 0 <= k < state.history.len() && state.history[k].line == e.line {
        let other = state.history[k].policy;
        lemma_policies_on(state.history, e.line, other);
        lemma_insert_name_holds(policies_on(state.history, e.line), policy, other);
        lemma_insert_name_holds(policies_on(state.history, e.line), policy, policy);
        assert(state.history[k].line == e.line && state.history[k].policy == other);
        assert(names.contains(other) && names.contains(policy));
        let i = choose|i: int| 0 <= i < names.len() && names[i] == other;
        let j = choose|j: int| 0 <= j < names.len() && names[j] == policy;
        if other != policy {
            assert(i != j);
            assert(names.len() >= 2);
        }
        lemma_some_on(state.history, e.line, k);
    }
    if forall|m: int|
        0 <= m < state.history.len() && (#[trigger] state.history[m]).line == e.line
            ==> state.history[m].policy == policy {
        lemma_single_policy(state.history, e.line, policy);
        if last_on(state.history, e.line) is Some {
            lemma_last_is_one(state.history, e.line);
        }
        assert(names.len() <= 1);
    }
}

proof fn lemma_some_on(history: Seq<EditView>, line: usize, k: int)
    requires
        0 <= k < history.len(),
        history[k].line == line,
    ensures
        last_on(history, line) is Some,
    decreases history.len(),
{
    if k < history.len() - 1 && history.last().line != line {
        assert(history.drop_last()[k] == history[k]);
        lemma_some_on(history.drop_last(), line, k);
    }
}

proof fn lemma_last_is_one(history: Seq<EditView>, line: usize)
    requires
        last_on(history, line) is Some,
    ensures
        exists|k: int|
            0 <= k < history.len() && #[trigger] history[k] == last_on(history, line)->0
                && history[k].line == line,
    decreases history.len(),
{
    if history.last().line == line {
        assert(history[history.len() - 1] == last_on(history, line)->0);
    } else {
        let head = history.drop_last();
        lemma_last_is_one(head, line);
        let k = choose|k: int|
            0 <= k < head.len() && #[trigger] head[k] == last_on(head, line)->0 && head[k].line
                == line;
        assert(history[k] == last_on(history, line)->0);
    }
}

proof fn lemma_single_policy(history: Seq<EditView>, line: usize, policy: Seq<char>)
    requires
        forall|m: int|
            0 <= m < history.len() && (#[trigger] history[m]).line == line ==> history[m].policy
                == policy,
    ensures
        policies_on(history, line).len() == 0 || policies_on(history, line) == seq![policy],
        text::insert_name(policies_on(history, line), policy) == seq![policy],
    decreases history.len(),
{
    if history.len() > 0 {
        let head = history.drop_last();
        assert forall|m: int| 0 <= m < head.len() && (#[trigger] head[m]).line == line implies head[
        m].policy == policy by {
            assert(head[m] == history[m]);
        }
        lemma_single_policy(head, line, policy);
        assert(history.last() == history[history.len() - 1]);
        assert(seq![policy].last() == policy);
    }
}

} // verus!
