//! The options of one run of the policies.
use std::collections::BTreeSet;
use vstd::prelude::*;

use crate::semantic_contract::SemanticInvariantClause;
use crate::text;
use crate::text::{normalize_label, str_eq};

verus! {

/// How far a retry may reach.
#[derive(Clone, Copy, Debug, PartialEq, Eq, Structural, Hash)]
pub enum RetryScopeStage {
    Full,
    CulpritRegion,
    NodeLocal,
    LineLocal,
}

impl RetryScopeStage {
    /// The label of a stage.
    pub open spec fn label(self) -> Seq<char> {
        match self {
            RetryScopeStage::Full => "full"@,
            RetryScopeStage::CulpritRegion => "culprit_region"@,
            RetryScopeStage::NodeLocal => "node_local"@,
            RetryScopeStage::LineLocal => "line_local"@,
        }
    }

    /// The stage that a label names, if any.
    pub open spec fn of_label(label: Seq<char>) -> Option<RetryScopeStage> {
        if label == "full"@ {
            Some(RetryScopeStage::Full)
        } else if label == "culprit_region"@ {
            Some(RetryScopeStage::CulpritRegion)
        } else if label == "node_local"@ {
            Some(RetryScopeStage::NodeLocal)
        } else if label == "line_local"@ {
            Some(RetryScopeStage::LineLocal)
        } else {
            None
        }
    }

    pub fn as_str(&self) -> (r: &'static str)
        ensures
            r@ == self.label(),
    {
        match self {
            RetryScopeStage::Full => "full",
            RetryScopeStage::CulpritRegion => "culprit_region",
            RetryScopeStage::NodeLocal => "node_local",
            RetryScopeStage::LineLocal => "line_local",
        }
    }

    /// Reads a serialized stage: surrounding white space and ASCII case are
    /// ignored.
    pub fn from_serialized(value: &str) -> (r: Option<RetryScopeStage>)
        ensures
            r == RetryScopeStage::of_label(text::lower_chars(text::trimmed(value@))),
    {
        let label = normalize_label(value);
        let label = label.as_str();
        if str_eq(label, "full") {
            Some(RetryScopeStage::Full)
        } else if str_eq(label, "culprit_region") {
            Some(RetryScopeStage::CulpritRegion)
        } else if str_eq(label, "node_local") {
            Some(RetryScopeStage::NodeLocal)
        } else if str_eq(label, "line_local") {
            Some(RetryScopeStage::LineLocal)
        } else {
            None
        }
    }

    /// Reading back what `as_str` wrote gives the stage again.
    pub proof fn lemma_label_round_trip(stage: RetryScopeStage)
        ensures
            RetryScopeStage::of_label(text::lower_chars(text::trimmed(stage.label()))) == Some(
                stage,
            ),
    {
        reveal_strlit("full");
        assert("full"@.len() == 4);
        reveal_strlit("culprit_region");
        assert("culprit_region"@.len() == 14);
        reveal_strlit("node_local");
        assert("node_local"@.len() == 10);
        reveal_strlit("line_local");
        assert("line_local"@.len() == 10);
        assert("node_local"@[0] != "line_local"@[0]);
        text::lemma_plain_label(stage.label());
    }
}

impl Default for RetryScopeStage {
    fn default() -> (r: RetryScopeStage)
        ensures
            r == RetryScopeStage::Full,
    {
        RetryScopeStage::Full
    }
}

/// What one run of the policies may do.
#[derive(Debug)]
pub struct PolicyRunOptions {
    pub blocked_policies: Vec<String>,
    pub allowed_edit_lines: Option<BTreeSet<usize>>,
    pub retry_scope_stage: RetryScopeStage,
    pub previous_contract_failures: Vec<SemanticInvariantClause>,
    /// Policies that need not run because they had nothing to edit before.
    pub skip_zero_edit_policies: Option<Vec<String>>,
    /// Whether the file is only looked at.
    pub observation_only: bool,
}

impl PolicyRunOptions {
    pub fn is_policy_blocked(&self, policy_name: &str) -> (r: bool)
        ensures
            r == text::views(self.blocked_policies@).contains(policy_name@),
    {
        text::list_contains(self.blocked_policies.as_slice(), policy_name)
    }

    /// Whether a policy is among those that need not run.
    pub open spec fn skips(&self, policy: Seq<char>) -> bool {
        self.skip_zero_edit_policies is Some && text::views(
            self.skip_zero_edit_policies->Some_0@,
        ).contains(policy)
    }

    pub fn is_policy_skipped(&self, policy_name: &str) -> (r: bool)
        ensures
            r == self.skips(policy_name@),
    {
        match &self.skip_zero_edit_policies {
            Some(list) => text::list_contains(list.as_slice(), policy_name),
            None => false,
        }
    }
}

impl Default for PolicyRunOptions {
    fn default() -> (r: PolicyRunOptions)
        ensures
            r.blocked_policies@.len() == 0,
            r.allowed_edit_lines is None,
            r.retry_scope_stage == RetryScopeStage::Full,
            r.previous_contract_failures@.len() == 0,
            r.skip_zero_edit_policies is None,
            !r.observation_only,
    {
        PolicyRunOptions {
            blocked_policies: Vec::new(),
            allowed_edit_lines: None,
            retry_scope_stage: RetryScopeStage::Full,
            previous_contract_failures: Vec::new(),
            skip_zero_edit_policies: None,
            observation_only: false,
        }
    }
}

} // verus!
