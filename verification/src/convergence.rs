//! Priority-based resolution of conflicting edits.
//!
//! When two policies propose edits on the same line, the one with the higher
//! priority number wins; on a tie the first writer does. Edits on unclaimed
//! lines are accepted immediately.
use std::collections::{BTreeMap, BTreeSet};
use vstd::prelude::*;

use crate::catalog;
use crate::catalog::{policy_catalog, CatalogConvergenceRiskTier};
use crate::line_text;
use crate::line_text::{concat_lines, split_lines};
use crate::lines::lines_of;
use crate::model;
use crate::model::{Edit, EditView, PolicyResult, ResultView, Violation, ViolationView};
use crate::pipeline::edit_utils;
use crate::pipeline::suppression;
use crate::pipeline::suppression::{keep_edits, keep_violations, mix_lines};
use crate::small_lists::{RangeList, SymbolList};
use crate::text;
use crate::text::str_eq;

verus! {

broadcast use {
    vstd::std_specs::btree::group_btree_axioms,
    vstd::laws_cmp::group_laws_cmp,
};

/// How a policy takes part in convergence.
#[derive(Clone, Copy, Debug, PartialEq, Eq, Structural, PartialOrd, Ord)]
pub enum ConvergenceRiskTier {
    Stabilizer,
    Balanced,
    Rewrite,
}

/// The tier of a catalog entry.
pub open spec fn tier_of(tier: CatalogConvergenceRiskTier) -> ConvergenceRiskTier {
    match tier {
        CatalogConvergenceRiskTier::Stabilizer => ConvergenceRiskTier::Stabilizer,
        CatalogConvergenceRiskTier::Balanced => ConvergenceRiskTier::Balanced,
        CatalogConvergenceRiskTier::Rewrite => ConvergenceRiskTier::Rewrite,
    }
}

fn convert_tier(tier: CatalogConvergenceRiskTier) -> (r: ConvergenceRiskTier)
    ensures
        r == tier_of(tier),
{
    match tier {
        CatalogConvergenceRiskTier::Stabilizer => ConvergenceRiskTier::Stabilizer,
        CatalogConvergenceRiskTier::Balanced => ConvergenceRiskTier::Balanced,
        CatalogConvergenceRiskTier::Rewrite => ConvergenceRiskTier::Rewrite,
    }
}

/// The convergence settings of one policy.
#[derive(Debug)]
pub struct ConvergencePolicyProfile {
    pub domain: String,
    pub priority: u16,
    pub impact_radius: usize,
    pub priority_weight_bp: u16,
    pub risk_tier: ConvergenceRiskTier,
}

impl ConvergencePolicyProfile {
    pub fn new(
        domain: String,
        priority: u16,
        impact_radius: usize,
        priority_weight_bp: u16,
    ) -> (r: ConvergencePolicyProfile)
        ensures
            r == (ConvergencePolicyProfile {
                domain,
                priority,
                impact_radius,
                priority_weight_bp,
                risk_tier: ConvergenceRiskTier::Balanced,
            }),
    {
        ConvergencePolicyProfile {
            domain,
            priority,
            impact_radius,
            priority_weight_bp,
            risk_tier: ConvergenceRiskTier::Balanced,
        }
    }

    pub fn with_risk_tier(
        domain: String,
        priority: u16,
        impact_radius: usize,
        priority_weight_bp: u16,
        risk_tier: ConvergenceRiskTier,
    ) -> (r: ConvergencePolicyProfile)
        ensures
            r == (ConvergencePolicyProfile {
                domain,
                priority,
                impact_radius,
                priority_weight_bp,
                risk_tier,
            }),
    {
        ConvergencePolicyProfile { domain, priority, impact_radius, priority_weight_bp, risk_tier }
    }
}

/// What is known of a policy's result when it converges with the others.
#[derive(Debug)]
pub struct ConvergencePolicySignal {
    /// How well the semantics are known, in thousandths.
    pub semantic_confidence_bp: u16,
    pub impact_radius: usize,
    pub capability_semantic_rewrite: bool,
    pub capability_macro_sensitive: bool,
    pub capability_whitespace_safe: bool,
    pub solver_dropped_lines: usize,
    pub hard_blocked_lines: usize,
    /// What each edited line reaches.
    pub impact_ranges: BTreeMap<usize, RangeList>,
    /// The symbols on each edited line.
    pub symbol_ids: BTreeMap<usize, SymbolList>,
}

impl Default for ConvergencePolicySignal {
    fn default() -> (r: ConvergencePolicySignal)
        ensures
            r.semantic_confidence_bp == 0,
            r.impact_radius == 0,
            !r.capability_semantic_rewrite,
            !r.capability_macro_sensitive,
            !r.capability_whitespace_safe,
            r.solver_dropped_lines == 0,
            r.hard_blocked_lines == 0,
            r.impact_ranges@ == Map::<usize, RangeList>::empty(),
            r.symbol_ids@ == Map::<usize, SymbolList>::empty(),
    {
        ConvergencePolicySignal {
            semantic_confidence_bp: 0,
            impact_radius: 0,
            capability_semantic_rewrite: false,
            capability_macro_sensitive: false,
            capability_whitespace_safe: false,
            solver_dropped_lines: 0,
            hard_blocked_lines: 0,
            impact_ranges: BTreeMap::new(),
            symbol_ids: BTreeMap::new(),
        }
    }
}

/// A policy with its settings.
#[derive(Debug)]
pub struct NamedProfile {
    pub policy: String,
    pub profile: ConvergencePolicyProfile,
}

/// The priority of a policy: that of its profile, or the catalog's.
pub open spec fn priority_of(profiles: Seq<NamedProfile>, policy: Seq<char>) -> u16
    decreases profiles.len(),
{
    if profiles.len() == 0 {
        catalog::named_convergence(policy).priority
    } else if profiles[0].policy@ == policy {
        profiles[0].profile.priority
    } else {
        priority_of(profiles.drop_first(), policy)
    }
}

/// Who claimed a line, and with what priority.
#[derive(Debug)]
pub struct LineClaim {
    pub policy: String,
    pub priority: u16,
}

/// A line that a policy lost to a later one.
#[derive(Debug)]
pub struct SuppressedLine {
    pub policy: String,
    pub line: usize,
}

/// What the controller holds.
pub ghost struct ControllerView {
    /// The profiles that the controller was made with.
    pub profiles: Seq<NamedProfile>,
    /// The policy and the priority by which each line is claimed.
    pub claims: Map<usize, (Seq<char>, u16)>,
    /// The lines of each policy that are left out of the report.
    pub suppressed: Set<(Seq<char>, usize)>,
}

/// Decides between policies that edit the same lines.
pub struct ConvergenceController {
    profiles: Vec<NamedProfile>,
    claimed_lines: BTreeMap<usize, LineClaim>,
    suppressed_lines: Vec<SuppressedLine>,
}

impl View for ConvergenceController {
    type V = ControllerView;

    closed spec fn view(&self) -> ControllerView {
        ControllerView {
            profiles: self.profiles@,
            claims: self.claimed_lines@.map_values(|c: LineClaim| (c.policy@, c.priority)),
            suppressed: suppressed_set(self.suppressed_lines@),
        }
    }
}

spec fn suppressed_set(list: Seq<SuppressedLine>) -> Set<(Seq<char>, usize)> {
    list.map_values(|s: SuppressedLine| (s.policy@, s.line)).to_set()
}

/// Whether a line is claimed with at least the given priority.
pub open spec fn holds_line(
    claims: Map<usize, (Seq<char>, u16)>,
    line: usize,
    priority: u16,
) -> bool {
    claims.contains_key(line) && claims[line].1 >= priority
}

/// Whether another policy holds a line with at least the given priority.
pub open spec fn is_held_by_other(
    claims: Map<usize, (Seq<char>, u16)>,
    line: usize,
    policy: Seq<char>,
    priority: u16,
) -> bool {
    holds_line(claims, line, priority) && claims[line].0 != policy
}

/// The changed lines that others hold with at least the same priority.
pub open spec fn lost_lines(
    claims: Map<usize, (Seq<char>, u16)>,
    edits: Seq<EditView>,
    policy: Seq<char>,
    priority: u16,
) -> Set<usize> {
    Set::new(
        |line: usize|
            is_held_by_other(claims, line, policy, priority) && edit_utils::changed_lines(
                edits,
            ).contains(line),
    )
}

/// The lines that others lose to the edits, with the policies that lose them.
pub open spec fn won_lines(
    claims: Map<usize, (Seq<char>, u16)>,
    edits: Seq<EditView>,
    policy: Seq<char>,
    priority: u16,
) -> Set<(Seq<char>, usize)> {
    Set::new(
        |loss: (Seq<char>, usize)|
            claims.contains_key(loss.1) && claims[loss.1].0 == loss.0 && loss.0 != policy
                && claims[loss.1].1 < priority && edit_utils::changed_lines(edits).contains(loss.1),
    )
}

/// The claims after the lines of the edits have been claimed too.
pub open spec fn with_claims(
    claims: Map<usize, (Seq<char>, u16)>,
    edits: Seq<EditView>,
    policy: Seq<char>,
    priority: u16,
) -> Map<usize, (Seq<char>, u16)>
    decreases edits.len(),
{
    if edits.len() == 0 {
        claims
    } else {
        let rest = with_claims(claims, edits.drop_last(), policy, priority);
        if edits.last().changes() {
            rest.insert(edits.last().line, (policy, priority))
        } else {
            rest
        }
    }
}

/// A result without its edits of the disabled lines: the text goes back where
/// no edit is left, and else line by line.
pub open spec fn retracted(before: Seq<char>, r: ResultView, disabled: Set<usize>) -> ResultView {
    let violations = suppression::kept_violations(r.violations, disabled);
    let edits = suppression::kept_edits(r.edits, disabled);
    if disabled.len() == 0 {
        r
    } else if edits.len() == 0 {
        ResultView { text: before, violations, edits, changed: false, ..r }
    } else {
        let b = line_text::lines_in(before);
        let a = line_text::lines_in(r.text);
        ResultView {
            text: line_text::concat(suppression::mixed(b, a, disabled)),
            violations,
            edits,
            changed: true,
            ..r
        }
    }
}

/// What is left of a policy's result.
pub open spec fn reconciled(
    claims: Map<usize, (Seq<char>, u16)>,
    before: Seq<char>,
    r: ResultView,
    policy: Seq<char>,
    priority: u16,
) -> ResultView {
    retracted(before, r, lost_lines(claims, r.edits, policy, priority))
}

/// The edits that are not suppressed for their policy.
pub open spec fn reported_edits(
    edits: Seq<EditView>,
    suppressed: Set<(Seq<char>, usize)>,
) -> Seq<EditView>
    decreases edits.len(),
{
    if edits.len() == 0 {
        Seq::empty()
    } else {
        let rest = reported_edits(edits.drop_last(), suppressed);
        if suppressed.contains((edits.last().policy, edits.last().line)) {
            rest
        } else {
            rest.push(edits.last())
        }
    }
}

/// The violations that are not suppressed for their policy.
pub open spec fn reported_violations(
    violations: Seq<ViolationView>,
    suppressed: Set<(Seq<char>, usize)>,
) -> Seq<ViolationView>
    decreases violations.len(),
{
    if violations.len() == 0 {
        Seq::empty()
    } else {
        let rest = reported_violations(violations.drop_last(), suppressed);
        if suppressed.contains((violations.last().policy, violations.last().line)) {
            rest
        } else {
            rest.push(violations.last())
        }
    }
}

/// What is reported in the end.
pub struct ConvergenceFinalizeResult {
    pub edits: Vec<Edit>,
    pub violations: Vec<Violation>,
    pub warnings: Vec<String>,
    /// How often each two policies met.
    pub convergence_pairs: BTreeMap<(String, String), usize>,
}

/// Takes back the edits of the disabled lines.
pub fn apply_line_suppression(
    before_text: &str,
    result: PolicyResult,
    disabled_lines: &BTreeSet<usize>,
) -> (r: PolicyResult)
    ensures
        r@ == retracted(before_text@, result@, disabled_lines@),
{
    let ghost start = result@;
    if disabled_lines.len() == 0 {
        return result;
    }
    let mut result = result;
    let violations = keep_violations(result.violations.as_slice(), disabled_lines);
    let edits = keep_edits(result.edits.as_slice(), disabled_lines);
    assert(model::edit_views(edits@).len() == edits@.len());
    if edits.len() == 0 {
        result.text = before_text.to_owned();
        result.violations = violations;
        result.edits = edits;
        result.changed = false;
        assert(result@ =~= retracted(before_text@, start, disabled_lines@));
        return result;
    }
    let disabled = lines_of(disabled_lines);
    let before_lines = split_lines(before_text);
    let after_lines = split_lines(result.text.as_str());
    let merged = mix_lines(&before_lines, &after_lines, &disabled);
    result.text = concat_lines(merged.as_slice());
    result.violations = violations;
    result.edits = edits;
    result.changed = true;
    assert(result@ =~= retracted(before_text@, start, disabled_lines@));
    result
}

impl ConvergenceController {
    /// The profiles that the controller was made with.
    pub open spec fn profile_list(&self) -> Seq<NamedProfile> {
        self@.profiles
    }

    pub fn new() -> (r: ConvergenceController)
        ensures
            r.profile_list().len() == 0,
            r@.claims == Map::<usize, (Seq<char>, u16)>::empty(),
            r@.suppressed == Set::<(Seq<char>, usize)>::empty(),
    {
        Self::with_profiles(Vec::new())
    }

    /// A controller for policies with the given settings; of two entries for
    /// one policy the first counts.
    pub fn with_profiles(profiles: Vec<NamedProfile>) -> (r: ConvergenceController)
        ensures
            r.profile_list() == profiles@,
            r@.claims == Map::<usize, (Seq<char>, u16)>::empty(),
            r@.suppressed == Set::<(Seq<char>, usize)>::empty(),
    {
        let r = ConvergenceController {
            profiles,
            claimed_lines: BTreeMap::new(),
            suppressed_lines: Vec::new(),
        };
        proof {
            assert(r@.claims =~= Map::empty());
            let none = r.suppressed_lines@.map_values(|s: SuppressedLine| (s.policy@, s.line));
            assert(none =~= Seq::empty());
            assert(none.to_set() =~= Set::empty());
        }
        r
    }

    fn policy_priority(&self, policy_name: &str) -> (r: u16)
        ensures
            r == priority_of(self.profile_list(), policy_name@),
    {
        let ghost all = self.profiles@;
        let mut i: usize = 0;
        assert(all.skip(0) =~= all);
        while i < self.profiles.len()
            invariant
                all == self.profiles@,
                i <= all.len(),
                priority_of(all, policy_name@) == priority_of(all.skip(i as int), policy_name@),
            decreases all.len() - i,
        {
            let ghost rest = all.skip(i as int);
            assert(rest[0] == all[i as int]);
            if str_eq(self.profiles[i].policy.as_str(), policy_name) {
                return self.profiles[i].profile.priority;
            }
            assert(rest.drop_first() =~= all.skip(i + 1));
            i += 1;
        }
        assert(all.skip(i as int) =~= Seq::empty());
        Self::default_priority_for(policy_name)
    }

    /// Resolves conflicts between a policy's proposed edits and the lines that
    /// other policies claimed before.
    ///
    /// On a line that another policy claimed already, the higher priority wins;
    /// equal priority favors the previous claimant. A winner's line is claimed,
    /// and the loser's edit of it is left out of the final report. A policy
    /// never loses a line to itself.
    pub fn reconcile_policy_result(
        &mut self,
        policy_name: &str,
        before_text: &str,
        result: PolicyResult,
    ) -> (r: PolicyResult)
        ensures
            final(self).profile_list() == old(self).profile_list(),
            ({
                let priority = priority_of(old(self).profile_list(), policy_name@);
                let claims = old(self)@.claims;
                &&& r@ == reconciled(claims, before_text@, result@, policy_name@, priority)
                &&& final(self)@.claims == with_claims(
                    claims,
                    r@.edits,
                    policy_name@,
                    priority,
                )
                &&& final(self)@.suppressed == old(self)@.suppressed.union(
                    won_lines(claims, result@.edits, policy_name@, priority),
                )
            }),
    {
        let ghost claims = self@.claims;
        let ghost edits = result@.edits;
        let priority = self.policy_priority(policy_name);
        let mut dropped_lines: BTreeSet<usize> = BTreeSet::new();
        let mut i: usize = 0;
        proof {
            let none = edits.take(0);
            assert(lost_lines(claims, none, policy_name@, priority) =~= Set::empty());
            assert(won_lines(claims, none, policy_name@, priority) =~= Set::empty());
            assert(self@.suppressed.union(Set::empty()) =~= self@.suppressed);
        }
        while i < result.edits.len()
            invariant
                claims == self@.claims,
                self.claimed_lines == old(self).claimed_lines,
                self.profiles == old(self).profiles,
                edits == model::edit_views(result.edits@),
                i <= edits.len(),
                dropped_lines@ == lost_lines(claims, edits.take(i as int), policy_name@, priority),
                self@.suppressed == old(self)@.suppressed.union(
                    won_lines(claims, edits.take(i as int), policy_name@, priority),
                ),
            decreases edits.len() - i,
        {
            let ghost head = edits.take(i as int);
            let ghost next = edits.take(i + 1);
            let ghost was_dropped = dropped_lines@;
            let ghost was_suppressed = self@.suppressed;
            let edit = &result.edits[i];
            assert(edits[i as int] == edit@);
            let mut lost = false;
            let mut won: Option<SuppressedLine> = None;
            if edit.is_change() {
                match self.claimed_lines.get(&edit.line) {
                    Some(claim) => {
                        assert(claims[edit.line] == (claim.policy@, claim.priority));
                        let own = str_eq(claim.policy.as_str(), policy_name);
                        if !own && claim.priority >= priority {
                            lost = true;
                        } else if !own {
                            won = Some(
                                SuppressedLine { policy: claim.policy.clone(), line: edit.line },
                            );
                        }
                    },
                    None => {},
                }
            }
            if lost {
                dropped_lines.insert(edit.line);
            }
            let ghost list = self.suppressed_lines@;
            let ghost gained = won;
            match won {
                Some(line) => {
                    self.suppressed_lines.push(line);
                },
                None => {},
            }
            proof {
                lemma_lost_step(claims, edits, i as int, policy_name@, priority);
                assert(dropped_lines@ =~= lost_lines(claims, next, policy_name@, priority));
                if gained is Some {
                    lemma_suppressed_push(list, gained->0);
                }
                assert(self@.claims =~= claims);
                assert(self@.suppressed =~= old(self)@.suppressed.union(
                    won_lines(claims, next, policy_name@, priority),
                ));
            }
            i += 1;
        }
        assert(edits.take(edits.len() as int) =~= edits);
        let result = apply_line_suppression(before_text, result, &dropped_lines);
        let ghost kept = result@.edits;
        let mut j: usize = 0;
        assert(kept.take(0) =~= Seq::empty());
        while j < result.edits.len()
            invariant
                kept == model::edit_views(result.edits@),
                self.profiles == old(self).profiles,
                self@.suppressed == old(self)@.suppressed.union(
                    won_lines(claims, edits, policy_name@, priority),
                ),
                j <= kept.len(),
                self@.claims == with_claims(claims, kept.take(j as int), policy_name@, priority),
            decreases kept.len() - j,
        {
            let ghost was = self@;
            let edit = &result.edits[j];
            proof {
                let next = kept.take(j + 1);
                assert(next.drop_last() =~= kept.take(j as int));
                assert(next.last() == edit@);
            }
            if edit.is_change() {
                self.claimed_lines.insert(
                    edit.line,
                    LineClaim { policy: policy_name.to_owned(), priority },
                );
                assert(self@.claims =~= was.claims.insert(edit.line, (policy_name@, priority)));
            }
            j += 1;
        }
        assert(kept.take(kept.len() as int) =~= kept);
        result
    }

    fn is_suppressed(&self, policy_name: &str, line: usize) -> (r: bool)
        ensures
            r == self@.suppressed.contains((policy_name@, line)),
    {
        let ghost list = self.suppressed_lines@.map_values(
            |s: SuppressedLine| (s.policy@, s.line),
        );
        let mut i: usize = 0;
        while i < self.suppressed_lines.len()
            invariant
                list == self.suppressed_lines@.map_values(
                    |s: SuppressedLine| (s.policy@, s.line),
                ),
                i <= self.suppressed_lines@.len(),
                forall|k: int| 0 <= k < i ==> #[trigger] list[k] != (policy_name@, line),
            decreases self.suppressed_lines@.len() - i,
        {
            let item = &self.suppressed_lines[i];
            assert(list[i as int] == (item.policy@, item.line));
            if item.line == line && str_eq(item.policy.as_str(), policy_name) {
                assert(list.to_set().contains(list[i as int]));
                return true;
            }
            i += 1;
        }
        false
    }

    /// Leaves out what was suppressed, once all policies have run.
    pub fn finalize(
        self,
        edits: Vec<Edit>,
        violations: Vec<Violation>,
        warnings: Vec<String>,
    ) -> (r: ConvergenceFinalizeResult)
        ensures
            model::edit_views(r.edits@) == reported_edits(
                model::edit_views(edits@),
                self@.suppressed,
            ),
            model::violation_views(r.violations@) == reported_violations(
                model::violation_views(violations@),
                self@.suppressed,
            ),
            r.warnings == warnings,
            r.convergence_pairs@ == Map::<(String, String), usize>::empty(),
    {
        let ghost all = model::edit_views(edits@);
        let mut kept: Vec<Edit> = Vec::new();
        let mut i: usize = 0;
        assert(model::edit_views(kept@) =~= Seq::empty());
        while i < edits.len()
            invariant
                all == model::edit_views(edits@),
                i <= edits@.len(),
                model::edit_views(kept@) == reported_edits(all.take(i as int), self@.suppressed),
            decreases edits@.len() - i,
        {
            let ghost was = model::edit_views(kept@);
            let ghost next = all.take(i + 1);
            assert(next.drop_last() =~= all.take(i as int));
            assert(next.last() == edits@[i as int]@);
            if !self.is_suppressed(edits[i].policy.as_str(), edits[i].line) {
                let copy = edits[i].clone();
                kept.push(copy);
                assert(model::edit_views(kept@) =~= was.push(copy@));
            }
            i += 1;
        }
        assert(all.take(all.len() as int) =~= all);
        let ghost objections = model::violation_views(violations@);
        let mut left: Vec<Violation> = Vec::new();
        let mut j: usize = 0;
        assert(model::violation_views(left@) =~= Seq::empty());
        while j < violations.len()
            invariant
                objections == model::violation_views(violations@),
                j <= violations@.len(),
                model::violation_views(left@) == reported_violations(
                    objections.take(j as int),
                    self@.suppressed,
                ),
            decreases violations@.len() - j,
        {
            let ghost was = model::violation_views(left@);
            let ghost next = objections.take(j + 1);
            assert(next.drop_last() =~= objections.take(j as int));
            assert(next.last() == violations@[j as int]@);
            if !self.is_suppressed(violations[j].policy.as_str(), violations[j].line) {
                let copy = violations[j].clone();
                left.push(copy);
                assert(model::violation_views(left@) =~= was.push(copy@));
            }
            j += 1;
        }
        assert(objections.take(objections.len() as int) =~= objections);
        ConvergenceFinalizeResult {
            edits: kept,
            violations: left,
            warnings,
            convergence_pairs: BTreeMap::new(),
        }
    }

    pub fn default_priority_for(policy_name: &str) -> (r: u16)
        ensures
            r == catalog::named_convergence(policy_name@).priority,
    {
        let catalog = policy_catalog();
        catalog.convergence(policy_name).priority
    }

    pub fn default_risk_tier_for(policy_name: &str) -> (r: ConvergenceRiskTier)
        ensures
            r == tier_of(catalog::named_convergence(policy_name@).risk_tier),
    {
        let catalog = policy_catalog();
        convert_tier(catalog.convergence(policy_name).risk_tier)
    }

    pub fn default_impact_radius_for(policy_name: &str) -> (r: usize)
        ensures
            r == catalog::named_convergence(policy_name@).impact_radius,
    {
        let catalog = policy_catalog();
        catalog.convergence(policy_name).impact_radius
    }

    pub fn default_priority_weight_bp_for(policy_name: &str) -> (r: u16)
        ensures
            r == catalog::named_convergence(policy_name@).priority_weight_bp,
    {
        let catalog = policy_catalog();
        catalog.convergence(policy_name).priority_weight_bp
    }
}

proof fn lemma_suppressed_push(list: Seq<SuppressedLine>, one: SuppressedLine)
    ensures
        suppressed_set(list.push(one)) == suppressed_set(list).insert((one.policy@, one.line)),
{
    let all = list.map_values(|s: SuppressedLine| (s.policy@, s.line));
    let more = list.push(one).map_values(|s: SuppressedLine| (s.policy@, s.line));
    let x = (one.policy@, one.line);
    assert(more =~= all.push(x));
    assert forall|y: (Seq<char>, usize)| more.to_set().contains(y) <==> all.to_set().insert(
        x,
    ).contains(y) by {
        if more.to_set().contains(y) {
            let k = choose|k: int| 0 <= k < more.len() && more[k] == y;
            if k < all.len() {
                assert(all[k] == y);
            }
        }
        if all.to_set().contains(y) {
            let k = choose|k: int| 0 <= k < all.len() && all[k] == y;
            assert(more[k] == y);
        }
        if y == x {
            assert(more[all.len() as int] == y);
        }
    }
    assert(more.to_set() =~= all.to_set().insert(x));
}

/// What one more edit adds to the lines that are lost and won.
proof fn lemma_lost_step(
    claims: Map<usize, (Seq<char>, u16)>,
    edits: Seq<EditView>,
    i: int,
    policy: Seq<char>,
    priority: u16,
)
    requires
        0 <= i < edits.len(),
    ensures
        lost_lines(claims, edits.take(i + 1), policy, priority) == if edits[i].changes()
            && is_held_by_other(claims, edits[i].line, policy, priority) {
            lost_lines(claims, edits.take(i), policy, priority).insert(edits[i].line)
        } else {
            lost_lines(claims, edits.take(i), policy, priority)
        },
        won_lines(claims, edits.take(i + 1), policy, priority) == if edits[i].changes()
            && claims.contains_key(edits[i].line) && claims[edits[i].line].0 != policy
            && claims[edits[i].line].1 < priority {
            won_lines(claims, edits.take(i), policy, priority).insert(
                (claims[edits[i].line].0, edits[i].line),
            )
        } else {
            won_lines(claims, edits.take(i), policy, priority)
        },
{
    let head = edits.take(i);
    let next = edits.take(i + 1);
    let e = edits[i];
    edit_utils::lemma_changed_step(edits, i);
    let more_lost = if e.changes() && is_held_by_other(claims, e.line, policy, priority) {
        lost_lines(claims, head, policy, priority).insert(e.line)
    } else {
        lost_lines(claims, head, policy, priority)
    };
    assert(lost_lines(claims, next, policy, priority) =~= more_lost);
    let more_won = if e.changes() && claims.contains_key(e.line) && claims[e.line].0 != policy
        && claims[e.line].1 < priority {
        won_lines(claims, head, policy, priority).insert((claims[e.line].0, e.line))
    } else {
        won_lines(claims, head, policy, priority)
    };
    assert(won_lines(claims, next, policy, priority) =~= more_won);
}

proof fn lemma_kept_subset(e: Seq<EditView>, disabled: Set<usize>, k: int)
    requires
        0 <= k < suppression::kept_edits(e, disabled).len(),
    ensures
        e.contains(suppression::kept_edits(e, disabled)[k]),
        !disabled.contains(suppression::kept_edits(e, disabled)[k].line),
    decreases e.len(),
{
    if e.len() > 0 {
        let head = e.drop_last();
        let rest = suppression::kept_edits(head, disabled);
        let now = suppression::kept_edits(e, disabled);
        if k < rest.len() {
            lemma_kept_subset(head, disabled, k);
            let m = choose|m: int| 0 <= m < head.len() && head[m] == rest[k];
            assert(e[m] == now[k]);
        } else {
            assert(e[e.len() - 1] == now[k]);
        }
    }
}

proof fn lemma_lost_finite(
    claims: Map<usize, (Seq<char>, u16)>,
    edits: Seq<EditView>,
    policy: Seq<char>,
    priority: u16,
)
    ensures
        lost_lines(claims, edits, policy, priority).finite(),
    decreases edits.len(),
{
    if edits.len() == 0 {
        assert(lost_lines(claims, edits, policy, priority) =~= Set::empty());
    } else {
        lemma_lost_finite(claims, edits.drop_last(), policy, priority);
        lemma_lost_step(claims, edits, edits.len() - 1, policy, priority);
        assert(edits.take(edits.len() - 1) =~= edits.drop_last());
        assert(edits.take(edits.len() as int) =~= edits);
    }
}

/// No edit that is left changes a line that another policy holds with at least
/// the same priority.
pub proof fn lemma_first_writer_wins(
    claims: Map<usize, (Seq<char>, u16)>,
    before: Seq<char>,
    r: ResultView,
    policy: Seq<char>,
    priority: u16,
)
    ensures
        ({
            let left = reconciled(claims, before, r, policy, priority).edits;
            forall|k: int|
                0 <= k < left.len() && (#[trigger] left[k]).changes() ==> !is_held_by_other(
                    claims,
                    left[k].line,
                    policy,
                    priority,
                )
        }),
{
    let lost = lost_lines(claims, r.edits, policy, priority);
    let left = reconciled(claims, before, r, policy, priority).edits;
    lemma_lost_finite(claims, r.edits, policy, priority);
    assert forall|k: int| 0 <= k < left.len() && (#[trigger] left[k]).changes() implies !is_held_by_other(
        claims,
        left[k].line,
        policy,
        priority,
    ) by {
        if lost.len() == 0 {
            if is_held_by_other(claims, left[k].line, policy, priority) {
                assert(edit_utils::changed_lines(r.edits).contains(left[k].line));
                assert(lost.contains(left[k].line));
                assert(lost =~= Set::empty());
            }
        } else {
            lemma_kept_subset(r.edits, lost, k);
            let e = left[k];
            let m = choose|m: int| 0 <= m < r.edits.len() && r.edits[m] == e;
            if is_held_by_other(claims, e.line, policy, priority) {
                assert(r.edits[m].changes() && r.edits[m].line == e.line);
                assert(edit_utils::changed_lines(r.edits).contains(e.line));
                assert(lost.contains(e.line));
            }
        }
    }
}

/// A policy loses no line to itself: where the lines that it changes are free
/// or its own, its result stays as it is.
pub proof fn lemma_own_claim_is_no_bar(
    claims: Map<usize, (Seq<char>, u16)>,
    before: Seq<char>,
    r: ResultView,
    policy: Seq<char>,
    priority: u16,
)
    requires
        forall|line: usize| #[trigger]
            edit_utils::changed_lines(r.edits).contains(line) && claims.contains_key(line)
                ==> claims[line].0 == policy,
    ensures
        reconciled(claims, before, r, policy, priority) == r,
        won_lines(claims, r.edits, policy, priority) == Set::<(Seq<char>, usize)>::empty(),
{
    assert(lost_lines(claims, r.edits, policy, priority) =~= Set::empty());
    assert(won_lines(claims, r.edits, policy, priority) =~= Set::empty());
}

/// Whether each line is claimed with the priority of the policy that holds it.
pub open spec fn are_rightful(
    claims: Map<usize, (Seq<char>, u16)>,
    profiles: Seq<NamedProfile>,
) -> bool {
    forall|line: usize| #[trigger]
        claims.contains_key(line) ==> claims[line].1 == priority_of(profiles, claims[line].0)
}

proof fn lemma_claim_of(
    claims: Map<usize, (Seq<char>, u16)>,
    edits: Seq<EditView>,
    policy: Seq<char>,
    priority: u16,
    line: usize,
)
    ensures
        ({
            let after = with_claims(claims, edits, policy, priority);
            if edit_utils::changed_lines(edits).contains(line) {
                after.contains_key(line) && after[line] == (policy, priority)
            } else {
                after.contains_key(line) == claims.contains_key(line) && after[line]
                    == claims[line]
            }
        }),
    decreases edits.len(),
{
    if edits.len() == 0 {
        assert(!edit_utils::changed_lines(edits).contains(line));
    } else {
        let head = edits.drop_last();
        lemma_claim_of(claims, head, policy, priority, line);
        edit_utils::lemma_changed_step(edits, edits.len() - 1);
        assert(edits.take(edits.len() - 1) =~= head);
        assert(edits.take(edits.len() as int) =~= edits);
    }
}

/// However many results are reconciled, each line is claimed with the priority
/// of the policy that holds it.
pub proof fn lemma_claims_stay_rightful(
    claims: Map<usize, (Seq<char>, u16)>,
    profiles: Seq<NamedProfile>,
    edits: Seq<EditView>,
    policy: Seq<char>,
)
    requires
        are_rightful(claims, profiles),
    ensures
        are_rightful(
            with_claims(claims, edits, policy, priority_of(profiles, policy)),
            profiles,
        ),
{
    let priority = priority_of(profiles, policy);
    let after = with_claims(claims, edits, policy, priority);
    assert forall|line: usize| #[trigger] after.contains_key(line) implies after[line].1
        == priority_of(profiles, after[line].0) by {
        lemma_claim_of(claims, edits, policy, priority, line);
        assert(claims.contains_key(line) ==> claims[line].1 == priority_of(
            profiles,
            claims[line].0,
        ));
    }
}

/// A claim is never lost, and only a higher priority takes it over.
pub proof fn lemma_claims_only_rise(
    claims: Map<usize, (Seq<char>, u16)>,
    profiles: Seq<NamedProfile>,
    before: Seq<char>,
    r: ResultView,
    policy: Seq<char>,
    line: usize,
)
    requires
        are_rightful(claims, profiles),
        claims.contains_key(line),
    ensures
        ({
            let priority = priority_of(profiles, policy);
            let left = reconciled(claims, before, r, policy, priority).edits;
            let after = with_claims(claims, left, policy, priority);
            &&& after.contains_key(line)
            &&& after[line] == claims[line] || (after[line] == (policy, priority) && priority
                > claims[line].1)
        }),
{
    let priority = priority_of(profiles, policy);
    let left = reconciled(claims, before, r, policy, priority).edits;
    lemma_claim_of(claims, left, policy, priority, line);
    lemma_first_writer_wins(claims, before, r, policy, priority);
    if edit_utils::changed_lines(left).contains(line) {
        let k = choose|k: int|
            0 <= k < left.len() && (#[trigger] left[k]).changes() && left[k].line == line;
        assert(left[k].changes());
        assert(!is_held_by_other(claims, left[k].line, policy, priority));
    }
}

/// The priority of a policy is that of its first profile; without a profile it
/// is the catalog's.
pub proof fn lemma_first_profile_counts(profiles: Seq<NamedProfile>, policy: Seq<char>, i: int)
    ensures
        0 <= i < profiles.len() && profiles[i].policy@ == policy && (forall|j: int|
            0 <= j < i ==> (#[trigger] profiles[j]).policy@ != policy) ==> priority_of(
            profiles,
            policy,
        ) == profiles[i].profile.priority,
        (forall|j: int| 0 <= j < profiles.len() ==> (#[trigger] profiles[j]).policy@ != policy)
            ==> priority_of(profiles, policy) == catalog::named_convergence(policy).priority,
    decreases profiles.len(),
{
    if profiles.len() > 0 {
        let rest = profiles.drop_first();
        lemma_first_profile_counts(rest, policy, i - 1);
        assert forall|j: int| 0 <= j < rest.len() implies rest[j] == #[trigger] profiles[j + 1] by {
        }
        if 0 <= i < profiles.len() && profiles[i].policy@ == policy && (forall|j: int|
            0 <= j < i ==> (#[trigger] profiles[j]).policy@ != policy) && i > 0 {
            assert(profiles[0].policy@ != policy);
            assert forall|j: int| 0 <= j < i - 1 implies (#[trigger] rest[j]).policy@ != policy by {
                assert(profiles[j + 1].policy@ != policy);
            }
            assert(rest[i - 1] == profiles[i]);
        }
        if forall|j: int| 0 <= j < profiles.len() ==> (#[trigger] profiles[j]).policy@ != policy {
            assert(profiles[0].policy@ != policy);
            assert forall|j: int| 0 <= j < rest.len() implies (#[trigger] rest[j]).policy@
                != policy by {
                assert(profiles[j + 1].policy@ != policy);
            }
        }
    }
}

proof fn lemma_kept_all(e: Seq<EditView>, disabled: Set<usize>, m: int)
    requires
        0 <= m < e.len(),
        !disabled.contains(e[m].line),
    ensures
        suppression::kept_edits(e, disabled).contains(e[m]),
    decreases e.len(),
{
    let head = e.drop_last();
    let rest = suppression::kept_edits(head, disabled);
    let all = suppression::kept_edits(e, disabled);
    if m < head.len() {
        lemma_kept_all(head, disabled, m);
        assert(head[m] == e[m]);
        let k = choose|k: int| 0 <= k < rest.len() && rest[k] == e[m];
        assert(all[k] == e[m]);
    } else {
        assert(all[rest.len() as int] == e[m]);
    }
}

/// What is left of a policy's edits: an edit goes exactly where its line is
/// changed by the policy, and another policy holds the line with a priority
/// that is not lower.
pub proof fn lemma_higher_priority_wins(
    claims: Map<usize, (Seq<char>, u16)>,
    before: Seq<char>,
    r: ResultView,
    policy: Seq<char>,
    priority: u16,
    e: EditView,
)
    ensures
        ({
            let left = reconciled(claims, before, r, policy, priority).edits;
            let changed = exists|k: int|
                0 <= k < r.edits.len() && (#[trigger] r.edits[k]).line == e.line && r.edits[k].line
                    > 0 && r.edits[k].before != r.edits[k].after;
            let held = claims.contains_key(e.line) && claims[e.line].0 != policy
                && claims[e.line].1 >= priority;
            left.contains(e) <==> r.edits.contains(e) && !(changed && held)
        }),
{
    let lost = lost_lines(claims, r.edits, policy, priority);
    let left = reconciled(claims, before, r, policy, priority).edits;
    lemma_lost_finite(claims, r.edits, policy, priority);
    let changed = exists|k: int|
        0 <= k < r.edits.len() && (#[trigger] r.edits[k]).line == e.line && r.edits[k].line > 0
            && r.edits[k].before != r.edits[k].after;
    let held = claims.contains_key(e.line) && claims[e.line].0 != policy && claims[e.line].1
        >= priority;
    if changed {
        let k = choose|k: int|
            0 <= k < r.edits.len() && (#[trigger] r.edits[k]).line == e.line && r.edits[k].line > 0
                && r.edits[k].before != r.edits[k].after;
        assert(r.edits[k].changes() && r.edits[k].line == e.line);
        assert(edit_utils::changed_lines(r.edits).contains(e.line));
    }
    if edit_utils::changed_lines(r.edits).contains(e.line) {
        let k = choose|k: int|
            0 <= k < r.edits.len() && (#[trigger] r.edits[k]).changes() && r.edits[k].line
                == e.line;
        assert(r.edits[k].line == e.line && r.edits[k].line > 0);
        assert(changed);
    }
    assert(lost.contains(e.line) == (changed && held));
    if lost.len() == 0 {
        assert(lost =~= Set::empty());
        assert(left == r.edits);
    } else {
        if left.contains(e) {
            let k = choose|k: int| 0 <= k < left.len() && left[k] == e;
            lemma_kept_subset(r.edits, lost, k);
        }
        if r.edits.contains(e) && !lost.contains(e.line) {
            let m = choose|m: int| 0 <= m < r.edits.len() && r.edits[m] == e;
            lemma_kept_all(r.edits, lost, m);
        }
    }
}

/// A line that a policy changes and loses goes back to what it was; the lines
/// that it does not lose stay as it left them.
pub proof fn lemma_lost_lines_go_back(
    claims: Map<usize, (Seq<char>, u16)>,
    before: Seq<char>,
    r: ResultView,
    policy: Seq<char>,
    priority: u16,
)
    requires
        line_text::lines_in(before).len() == line_text::lines_in(r.text).len(),
        line_text::lines_in(before).len() < usize::MAX,
    ensures
        ({
            let was = line_text::lines_in(before);
            let now = line_text::lines_in(r.text);
            let left = reconciled(claims, before, r, policy, priority);
            let is_lost = |line: int|
                exists|k: int|
                    0 <= k < r.edits.len() && (#[trigger] r.edits[k]).line == line && r.edits[k].line
                        > 0 && r.edits[k].before != r.edits[k].after && claims.contains_key(
                        r.edits[k].line,
                    ) && claims[r.edits[k].line].0 != policy && claims[r.edits[k].line].1
                        >= priority;
            &&& left.text == r.text || left.text == before || left.text == line_text::concat(
                Seq::new(
                    was.len(),
                    |i: int|
                        if is_lost(i + 1) {
                            was[i]
                        } else {
                            now[i]
                        },
                ),
            )
            &&& (forall|line: int| !(#[trigger] is_lost(line))) ==> left == r
            &&& left.edits.len() == 0 && left.text != r.text ==> left.text == before
            &&& left.edits.len() > 0 ==> left.text == line_text::concat(
                Seq::new(
                    was.len(),
                    |i: int|
                        if is_lost(i + 1) {
                            was[i]
                        } else {
                            now[i]
                        },
                ),
            )
        }),
{
    let was = line_text::lines_in(before);
    let now = line_text::lines_in(r.text);
    let lost = lost_lines(claims, r.edits, policy, priority);
    lemma_lost_finite(claims, r.edits, policy, priority);
    let is_lost = |line: int|
        exists|k: int|
            0 <= k < r.edits.len() && (#[trigger] r.edits[k]).line == line && r.edits[k].line > 0
                && r.edits[k].before != r.edits[k].after && claims.contains_key(r.edits[k].line)
                && claims[r.edits[k].line].0 != policy && claims[r.edits[k].line].1 >= priority;
    assert forall|line: usize| lost.contains(line) <==> #[trigger] is_lost(line as int) by {
        if lost.contains(line) {
            let k = choose|k: int|
                0 <= k < r.edits.len() && (#[trigger] r.edits[k]).changes() && r.edits[k].line
                    == line;
            assert(r.edits[k].line == line && r.edits[k].line > 0);
        }
        if is_lost(line as int) {
            let k = choose|k: int|
                0 <= k < r.edits.len() && (#[trigger] r.edits[k]).line == line as int
                    && r.edits[k].line > 0 && r.edits[k].before != r.edits[k].after
                    && claims.contains_key(r.edits[k].line) && claims[r.edits[k].line].0 != policy
                    && claims[r.edits[k].line].1 >= priority;
            assert(r.edits[k].changes());
            assert(edit_utils::changed_lines(r.edits).contains(line));
        }
    }
    let text = Seq::new(
        was.len(),
        |i: int|
            if is_lost(i + 1) {
                was[i]
            } else {
                now[i]
            },
    );
    assert(!lost.contains(0)) by {
        if lost.contains(0) {
            assert(is_lost(0));
        }
    }
    assert forall|i: int| 0 <= i < was.len() implies suppression::slot_disabled(lost, i) == is_lost(
        i + 1,
    ) by {
        assert(lost.contains((i + 1) as usize) == is_lost(i + 1));
    }
    assert(suppression::mixed(was, now, lost) =~= text);
    if forall|line: int| !(#[trigger] is_lost(line)) {
        assert forall|line: usize| !lost.contains(line) by {
            assert(!is_lost(line as int));
        }
        assert(lost =~= Set::empty());
    }
    if lost.len() == 0 {
        assert(lost =~= Set::empty());
        assert forall|i: int| 0 <= i < was.len() implies text[i] == now[i] by {
            assert(!lost.contains((i + 1) as usize));
            assert(!is_lost((i + 1) as usize as int));
        }
        assert(text =~= now);
        line_text::lemma_lines_concat(r.text);
    }
}

/// Two policies on one line: the first to change a line that nobody holds keeps
/// it against a second of no higher priority, whose edits of the line go. A
/// second of a higher priority keeps its edits of the line, and those of the
/// first are left out of the report.
pub proof fn lemma_two_policies_on_a_line(
    profiles: Seq<NamedProfile>,
    before: Seq<char>,
    a: Seq<char>,
    first: ResultView,
    b: Seq<char>,
    second: ResultView,
    i: int,
    j: int,
    reported: Seq<EditView>,
)
    requires
        a != b,
        0 <= i < first.edits.len(),
        0 <= j < second.edits.len(),
        first.edits[i].line == second.edits[j].line,
        first.edits[i].line > 0,
        first.edits[i].before != first.edits[i].after,
        second.edits[j].before != second.edits[j].after,
        first.edits[i].policy == a,
        second.edits[j].policy == b,
    ensures
        ({
            let none = Map::<usize, (Seq<char>, u16)>::empty();
            let pa = priority_of(profiles, a);
            let pb = priority_of(profiles, b);
            let left = reconciled(none, before, first, a, pa);
            let claims = with_claims(none, left.edits, a, pa);
            let next = reconciled(claims, left.text, second, b, pb);
            let suppressed = won_lines(none, first.edits, a, pa).union(
                won_lines(claims, second.edits, b, pb),
            );
            &&& left == first
            &&& pb <= pa ==> !next.edits.contains(second.edits[j])
            &&& pb > pa ==> next.edits.contains(second.edits[j])
            &&& pb > pa ==> !reported_edits(reported, suppressed).contains(first.edits[i])
            &&& pb <= pa && reported.contains(first.edits[i]) ==> reported_edits(
                reported,
                suppressed,
            ).contains(first.edits[i])
            &&& reported.contains(second.edits[j]) ==> reported_edits(
                reported,
                suppressed,
            ).contains(second.edits[j])
        }),
{
    let none = Map::<usize, (Seq<char>, u16)>::empty();
    let pa = priority_of(profiles, a);
    let pb = priority_of(profiles, b);
    let left = reconciled(none, before, first, a, pa);
    let line = first.edits[i].line;
    assert(lost_lines(none, first.edits, a, pa) =~= Set::empty());
    assert(left == first);
    let claims = with_claims(none, left.edits, a, pa);
    assert(first.edits[i].changes());
    assert(edit_utils::changed_lines(first.edits).contains(line));
    lemma_claim_of(none, first.edits, a, pa, line);
    assert(claims[line] == (a, pa));
    lemma_higher_priority_wins(claims, left.text, second, b, pb, second.edits[j]);
    assert(second.edits[j].line == line && second.edits[j].line > 0);
    assert(second.edits.contains(second.edits[j]));
    assert(second.edits[j].changes());
    assert(edit_utils::changed_lines(second.edits).contains(line));
    let suppressed = won_lines(none, first.edits, a, pa).union(
        won_lines(claims, second.edits, b, pb),
    );
    assert(suppressed.contains((a, line)) == (pb > pa));
    assert(!suppressed.contains((b, line)));
    lemma_reported(reported, suppressed, first.edits[i]);
    lemma_reported(reported, suppressed, second.edits[j]);
}

proof fn lemma_reported(edits: Seq<EditView>, suppressed: Set<(Seq<char>, usize)>, e: EditView)
    ensures
        reported_edits(edits, suppressed).contains(e) <==> edits.contains(e)
            && !suppressed.contains((e.policy, e.line)),
    decreases edits.len(),
{
    if edits.len() > 0 {
        let head = edits.drop_last();
        let rest = reported_edits(head, suppressed);
        let all = reported_edits(edits, suppressed);
        lemma_reported(head, suppressed, e);
        if head.contains(e) {
            let k = choose|k: int| 0 <= k < head.len() && head[k] == e;
            assert(edits[k] == e);
        }
        if edits.contains(e) {
            let k = choose|k: int| 0 <= k < edits.len() && edits[k] == e;
            if k < head.len() {
                assert(head[k] == e);
            }
        }
        if rest.contains(e) {
            let k = choose|k: int| 0 <= k < rest.len() && rest[k] == e;
            assert(all[k] == e);
        }
        if all.contains(e) {
            let k = choose|k: int| 0 <= k < all.len() && all[k] == e;
            if k < rest.len() {
                assert(rest[k] == e);
            }
        }
        if edits.last() == e {
            assert(edits[edits.len() - 1] == e);
            if !suppressed.contains((e.policy, e.line)) {
                assert(all[rest.len() as int] == e);
            }
        }
    }
}

/// The report leaves out exactly the edits and violations of the policies that
/// lost their lines.
pub proof fn lemma_report_leaves_out_the_losers(
    edits: Seq<EditView>,
    violations: Seq<ViolationView>,
    suppressed: Set<(Seq<char>, usize)>,
    e: EditView,
    v: ViolationView,
)
    ensures
        reported_edits(edits, suppressed).contains(e) <==> edits.contains(e)
            && !suppressed.contains((e.policy, e.line)),
        reported_violations(violations, suppressed).contains(v) <==> violations.contains(v)
            && !suppressed.contains((v.policy, v.line)),
    decreases violations.len(),
{
    lemma_reported(edits, suppressed, e);
    if violations.len() > 0 {
        let head = violations.drop_last();
        let rest = reported_violations(head, suppressed);
        let all = reported_violations(violations, suppressed);
        lemma_report_leaves_out_the_losers(edits, head, suppressed, e, v);
        if head.contains(v) {
            let k = choose|k: int| 0 <= k < head.len() && head[k] == v;
            assert(violations[k] == v);
        }
        if violations.contains(v) {
            let k = choose|k: int| 0 <= k < violations.len() && violations[k] == v;
            if k < head.len() {
                assert(head[k] == v);
            }
        }
        if rest.contains(v) {
            let k = choose|k: int| 0 <= k < rest.len() && rest[k] == v;
            assert(all[k] == v);
        }
        if all.contains(v) {
            let k = choose|k: int| 0 <= k < all.len() && all[k] == v;
            if k < rest.len() {
                assert(rest[k] == v);
            }
        }
        if violations.last() == v {
            assert(violations[violations.len() - 1] == v);
            if !suppressed.contains((v.policy, v.line)) {
                assert(all[rest.len() as int] == v);
            }
        }
    }
}

/// A line is claimed by the policy whose edit of it was kept, with its
/// priority; the other claims stay. And a line is won from the policy that held
/// it exactly where the winner changes it with a higher priority.
pub proof fn lemma_changed_lines_are_claimed(
    claims: Map<usize, (Seq<char>, u16)>,
    edits: Seq<EditView>,
    policy: Seq<char>,
    priority: u16,
    line: usize,
    loser: Seq<char>,
)
    ensures
        ({
            let after = with_claims(claims, edits, policy, priority);
            let changed = exists|k: int|
                0 <= k < edits.len() && (#[trigger] edits[k]).line == line && line > 0
                    && edits[k].before != edits[k].after;
            &&& changed ==> after.contains_key(line) && after[line] == (policy, priority)
            &&& !changed ==> after.contains_key(line) == claims.contains_key(line) && after[line]
                == claims[line]
            &&& won_lines(claims, edits, policy, priority).contains((loser, line)) <==> changed
                && claims.contains_key(line) && claims[line].0 == loser && loser != policy
                && claims[line].1 < priority
        }),
{
    lemma_claim_of(claims, edits, policy, priority, line);
    let changed = exists|k: int|
        0 <= k < edits.len() && (#[trigger] edits[k]).line == line && line > 0 && edits[k].before
            != edits[k].after;
    if changed {
        let k = choose|k: int|
            0 <= k < edits.len() && (#[trigger] edits[k]).line == line && line > 0
                && edits[k].before != edits[k].after;
        assert(edits[k].changes());
        assert(edit_utils::changed_lines(edits).contains(line));
    }
    if edit_utils::changed_lines(edits).contains(line) {
        let k = choose|k: int|
            0 <= k < edits.len() && (#[trigger] edits[k]).changes() && edits[k].line == line;
        assert(edits[k].line == line);
        assert(changed);
    }
}

} // verus!
