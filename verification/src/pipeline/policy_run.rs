//! The stages of one policy in a run.
//!
//! The policy itself and all parsing are outside. Each step takes what came of
//! the last outside work and says which work is next.
use vstd::prelude::*;

use crate::pipeline::checkpoint::PolicyCheckpointResult;
use crate::pipeline::coordinate::CoordinatedPolicyStage;
use crate::pipeline::run;
use crate::pipeline::run::{
    prepare_policy_stage, Admission, AfterCheckpoint, ParsePlan, PipelineState, StateView,
};
use crate::pipeline::stage::{ExecutedPolicyStage, PreparedPolicyStage};
use crate::run_options::{PolicyRunOptions, RetryScopeStage};
use crate::{catalog, semantic_contract};

verus! {

/// A policy under way.
#[derive(Debug)]
pub struct PolicyStageRun {
    pub policy: String,
    pub scope: RetryScopeStage,
    pub prepared: PreparedPolicyStage,
    /// Why its text was taken back, where it runs again.
    pub again: Option<String>,
}

/// Which outside work is next.
#[derive(Debug)]
pub enum StageAction {
    /// None: the policy is done.
    Done,
    /// What is planned is parsed, and then the policy proposes edits.
    Propose { plan: ParsePlan },
    /// The places of the edits are looked up.
    LookUp { executed: ExecutedPolicyStage },
    /// The text is parsed anew.
    Checkpoint { coordinated: CoordinatedPolicyStage },
}

impl PolicyStageRun {
    /// Whether a value is of the same policy, but for why it runs again.
    pub open spec fn continues(self, before: PolicyStageRun) -> bool {
        &&& self.policy == before.policy
        &&& self.scope == before.scope
        &&& self.prepared == before.prepared
    }

    /// Lets a policy in, or keeps it out. One that is let in is given the
    /// parses of the current text.
    pub fn begin(
        state: &mut PipelineState,
        options: &PolicyRunOptions,
        policy_name: &str,
        semantic_hard_invariant: Option<bool>,
    ) -> (r: (PolicyStageRun, StageAction))
        ensures
            final(state)@ == run::after_admission(
                old(state)@,
                run::admission(*options, policy_name@),
                policy_name@,
            ),
            r.0.policy@ == policy_name@,
            r.0.scope == options.retry_scope_stage,
            r.0.prepared.capability == catalog::named_capabilities(policy_name@),
            r.0.prepared.guidance_mode == (match semantic_hard_invariant {
                Some(hard) => semantic_contract::guidance(policy_name@, hard),
                None => semantic_contract::PolicyGuidanceMode::SoftGuideline,
            }),
            r.0.again is None,
            r.1 == (if run::admission(*options, policy_name@) == Admission::Runs {
                StageAction::Propose { plan: old(state).parse.planned() }
            } else {
                StageAction::Done
            }),
    {
        let stage = PolicyStageRun {
            policy: policy_name.to_owned(),
            scope: options.retry_scope_stage,
            prepared: prepare_policy_stage(policy_name, semantic_hard_invariant),
            again: None,
        };
        let ghost was = state@;
        let admission = state.admit_policy(options, policy_name);
        assert(state@.parse == was.parse);
        if admission == Admission::Runs {
            let plan = state.parse.plan();
            (stage, StageAction::Propose { plan })
        } else {
            (stage, StageAction::Done)
        }
    }

    /// Goes on after the policy's proposal was executed. A policy that had
    /// nothing to say is done, and so is one that ran again and changed
    /// nothing.
    pub fn executed(&self, state: &mut PipelineState, executed: ExecutedPolicyStage) -> (r:
        StageAction)
        ensures
            ({
                let s = old(state)@;
                let done = match self.again {
                    None => run::is_quiet(executed.result@, s.current),
                    Some(_) => executed.result@.text == s.current,
                };
                &&& r == (if done {
                    StageAction::Done
                } else {
                    StageAction::LookUp { executed }
                })
                &&& final(state)@ == (if !done {
                    s
                } else {
                    match self.again {
                        None => StateView {
                            traces: s.traces.push(run::idle_trace(self.policy@, "n/a"@)),
                            ..s
                        },
                        Some(reason) => StateView { warnings: s.warnings.push(reason@), ..s },
                    }
                })
            }),
    {
        let done = match &self.again {
            None => state.finish_quiet_policy(self.policy.as_str(), &executed.result),
            Some(reason) => state.finish_idle_retry(
                executed.result.text.as_str(),
                reason.as_str(),
            ),
        };
        if done {
            StageAction::Done
        } else {
            StageAction::LookUp { executed }
        }
    }

    /// Whether a text is committed without a checkpoint: that of a policy that
    /// only moves white space, the first time it runs.
    pub open spec fn needs_no_checkpoint(self, coordinated: CoordinatedPolicyStage) -> bool {
        self.again is None && self.prepared.capability.whitespace_safe && coordinated.text_changed
    }

    /// Goes on after the policy's edits were coordinated with those of others.
    pub fn coordinated(&self, state: &mut PipelineState, coordinated: CoordinatedPolicyStage) -> (r:
        StageAction)
        requires
            old(state).parse.clang_edits_since < usize::MAX,
        ensures
            r == (if self.needs_no_checkpoint(coordinated) {
                StageAction::Done
            } else {
                StageAction::Checkpoint { coordinated }
            }),
            final(state)@ == (if self.needs_no_checkpoint(coordinated) {
                run::committed(
                    old(state)@,
                    coordinated,
                    self.policy@,
                    self.scope,
                    self.prepared.capability.semantic_rewrite,
                    self.prepared.capability.clang_invalidating,
                )
            } else {
                old(state)@
            }),
    {
        match &self.again {
            Some(_) => StageAction::Checkpoint { coordinated },
            None => match state.commit_whitespace_safe(
                self.policy.as_str(),
                coordinated,
                self.scope,
                self.prepared.capability.whitespace_safe,
                self.prepared.capability.semantic_rewrite,
                self.prepared.capability.clang_invalidating,
            ) {
                None => StageAction::Done,
                Some(coordinated) => StageAction::Checkpoint { coordinated },
            },
        }
    }

    /// Whether a policy runs again after a checkpoint: once, on fewer lines.
    pub open spec fn goes_again(
        self,
        s: StateView,
        outcome: PolicyCheckpointResult,
        retry_batch: usize,
    ) -> bool {
        self.again is None && match outcome {
            PolicyCheckpointResult::Rollback { after_error_count, .. } => run::runs_again(
                s,
                after_error_count,
                retry_batch,
            ),
            _ => false,
        }
    }

    /// Goes on after a checkpoint.
    pub fn checked(
        &mut self,
        state: &mut PipelineState,
        coordinated: CoordinatedPolicyStage,
        outcome: PolicyCheckpointResult,
        retry_batch: usize,
    ) -> (r: StageAction)
        requires
            old(state).parse.clang_edits_since < usize::MAX,
        ensures
            final(self).continues(*old(self)),
            final(self).again == (if old(self).goes_again(old(state)@, outcome, retry_batch) {
                Some(outcome->reason)
            } else {
                old(self).again
            }),
            r == (if old(self).goes_again(old(state)@, outcome, retry_batch) {
                StageAction::Propose { plan: old(state).parse.planned() }
            } else {
                StageAction::Done
            }),
            final(state)@ == (match old(self).again {
                None => run::after_checkpoint_state(
                    old(state)@,
                    coordinated,
                    outcome,
                    old(self).policy@,
                    old(self).scope,
                    old(self).prepared.capability.semantic_rewrite,
                    old(self).prepared.capability.clang_invalidating,
                    retry_batch,
                ),
                Some(_) => run::after_retry_state(
                    old(state)@,
                    coordinated,
                    outcome,
                    old(self).policy@,
                    old(self).scope,
                    old(self).prepared.capability.semantic_rewrite,
                    old(self).prepared.capability.clang_invalidating,
                ),
            }),
    {
        let rewrites = self.prepared.capability.semantic_rewrite;
        let invalidates = self.prepared.capability.clang_invalidating;
        let ghost was = state@;
        if self.again.is_some() {
            state.after_retry_checkpoint(
                self.policy.as_str(),
                coordinated,
                outcome,
                self.scope,
                rewrites,
                invalidates,
            );
            return StageAction::Done;
        }
        match state.after_checkpoint(
            self.policy.as_str(),
            coordinated,
            outcome,
            self.scope,
            rewrites,
            invalidates,
            retry_batch,
        ) {
            AfterCheckpoint::Done => StageAction::Done,
            AfterCheckpoint::RunAgain { reason } => {
                assert(state@.parse == was.parse);
                self.again = Some(reason);
                let plan = state.parse.plan();
                StageAction::Propose { plan }
            },
        }
    }
}

/// A policy runs at most twice: one that runs again does not do so once more.
pub proof fn lemma_no_third_run(
    stage: PolicyStageRun,
    s: StateView,
    outcome: PolicyCheckpointResult,
    retry_batch: usize,
)
    requires
        stage.again is Some,
    ensures
        !stage.goes_again(s, outcome, retry_batch),
{
}

/// A policy that was taken back twice leaves the text as it found it, and a
/// warning that says why.
pub proof fn lemma_second_rollback_keeps_text(
    s: StateView,
    y: CoordinatedPolicyStage,
    outcome: PolicyCheckpointResult,
    policy: Seq<char>,
    scope: RetryScopeStage,
    rewrites: bool,
    invalidates: bool,
)
    requires
        outcome is Rollback,
    ensures
        ({
            let next = run::after_retry_state(s, y, outcome, policy, scope, rewrites, invalidates);
            &&& next.current == s.current
            &&& next.edits == s.edits
            &&& next.warnings == s.warnings.push(outcome->reason@)
        }),
{
}

/// Which texts are committed without a look at them: those that changed, of a
/// policy for comments, the first time it runs.
pub proof fn lemma_who_needs_no_checkpoint(
    stage: PolicyStageRun,
    coordinated: CoordinatedPolicyStage,
)
    requires
        stage.prepared.capability == catalog::named_capabilities(stage.policy@),
    ensures
        stage.needs_no_checkpoint(coordinated) <==> stage.again is None && coordinated.text_changed
            && (stage.policy@ == "dash_comment_normalizer"@ || stage.policy@
            == "section_title_normalizer"@),
{
    catalog::lemma_zones_of_policies(stage.policy@);
}

} // verus!
