//! The run over one file: from the first look at it to the result.
//!
//! Policies are run and files are parsed outside. What is done next, and what
//! becomes of each result, is decided here.
use std::collections::BTreeSet;
use vstd::prelude::*;

use crate::accuracy_gate;
use crate::accuracy_gate::{AccuracyGateDecision, AccuracyGateFailure, AccuracyGateStatus};
use crate::compdb::SemanticCompdbContextKind;
use crate::coordinator;
use crate::coordinator::{
    CheckStep, ClusterOutcome, FormatPassResult, FormatterEngine, PassStep,
};
use crate::model;
use crate::model::{EditView, ResultView};
use crate::pipeline::run;
use crate::post_check::PostEditCheckResult;
use crate::run_options::PolicyRunOptions;
use crate::semantic_contract::SemanticContractSnapshot;
use crate::text;

verus! {

broadcast use {
    vstd::std_specs::btree::group_btree_axioms,
    vstd::laws_cmp::group_laws_cmp,
};

/// A run over a file.
#[derive(Debug)]
pub struct FormatRun {
    pub engine: FormatterEngine,
    pub path: String,
    pub input: String,
    /// Whether the file was looked at before it was edited.
    pub has_baseline: bool,
    pub semantic_ready: bool,
    pub kind: SemanticCompdbContextKind,
    pub warnings: Vec<String>,
    /// Whether the first pass is still under way.
    pub first: bool,
}

/// What is done next.
#[derive(Debug)]
pub enum FormatAction {
    /// The pass is kept, and the run is finished with it.
    Keep { pass: FormatPassResult, outcome: ClusterOutcome, score: u32 },
    /// The pass is checked: its syntax alone, or all of it.
    Check { pass: FormatPassResult, in_full: bool },
    /// Another pass is run.
    RunAgain { options: PolicyRunOptions },
    /// The file is left as it was, or the run fails.
    Revert { result: Result<FormatPassResult, String>, score: u32 },
}

/// The result of a pass in which every change is told as an edit.
pub open spec fn told_pass(input: Seq<char>, pass: FormatPassResult, told: FormatPassResult) -> bool {
    &&& told.policy_result@ == coordinator::told(input, pass.policy_result@)
    &&& told.policy_traces == pass.policy_traces
    &&& told.convergence_pairs == pass.convergence_pairs
    &&& told.accuracy_gate == pass.accuracy_gate
}

/// A result with the warnings of the run before its own.
pub open spec fn with_warnings(r: ResultView, warnings: Seq<Seq<char>>) -> ResultView {
    ResultView { warnings: coordinator::merged_warnings(warnings, r.warnings), ..r }
}

/// Whether this is the result of a run that keeps a pass.
pub open spec fn is_finished(
    run: FormatRun,
    pass: FormatPassResult,
    summary: Seq<char>,
    r: Result<FormatPassResult, AccuracyGateFailure>,
) -> bool {
    let kept = with_warnings(pass.policy_result@, text::views(run.warnings@));
    exists|d: AccuracyGateDecision|
        #[trigger] accuracy_gate::is_gate_decision(
            d,
            run.engine.accuracy_gate,
            coordinator::gate_input(kept, run.semantic_ready, run.kind),
        ) && match r {
            Ok(result) => {
                &&& d.status != AccuracyGateStatus::FailedClosed
                &&& result.policy_result@ == coordinator::gated(kept, d.status, summary)
                &&& result.policy_traces == pass.policy_traces
                &&& result.convergence_pairs == pass.convergence_pairs
                &&& result.accuracy_gate == if d.status == AccuracyGateStatus::WarningOnly {
                    Some(d)
                } else {
                    pass.accuracy_gate
                }
            },
            Err(failure) => {
                &&& d.status == AccuracyGateStatus::FailedClosed
                &&& failure.decision == d
                &&& failure.path@ == run.path@
                &&& failure.kind is ThresholdMiss
            },
        }
}

/// The lines that edits name.
pub open spec fn lines_told(edits: Seq<EditView>) -> Set<usize> {
    Set::new(
        |line: usize|
            exists|k: int| 0 <= k < edits.len() && (#[trigger] edits[k]).line == line,
    )
}

impl FormatRun {
    /// Starts a run. A file whose semantics have to be known and are not is
    /// stopped or warned of.
    pub fn start(
        engine: FormatterEngine,
        path: &str,
        input: &str,
        has_baseline: bool,
        semantic_ready: bool,
        note: Option<&str>,
        kind: SemanticCompdbContextKind,
    ) -> (r: Result<FormatRun, AccuracyGateFailure>)
        ensures
            ({
                let demanded = engine.accuracy_gate.semantic_required && !semantic_ready;
                let stopped = demanded && coordinator::stops_unready(engine.accuracy_gate, kind);
                match r {
                    Err(failure) => stopped && failure.path@ == path@
                        && failure.kind is SemanticRequiredUnmet && failure.kind->detail@
                        == coordinator::unmet_detail(note) && accuracy_gate::is_gate_decision(
                        failure.decision,
                        engine.accuracy_gate,
                        coordinator::untried_input(kind),
                    ),
                    Ok(run) => {
                        &&& !stopped
                        &&& run.engine == engine && run.path@ == path@ && run.input@ == input@
                        &&& run.has_baseline == has_baseline
                        &&& run.semantic_ready == semantic_ready && run.kind == kind && run.first
                        &&& text::views(run.warnings@) == if demanded {
                            seq![
                                "accuracy_gate warning: semantic_required unmet for "@ + path@
                                    + " ("@ + coordinator::unmet_detail(note) + ")"@,
                            ]
                        } else {
                            Seq::empty()
                        }
                    },
                }
            }),
    {
        let mut warnings: Vec<String> = Vec::new();
        assert(text::views(warnings@) =~= Seq::empty());
        match engine.check_semantic_requirement(path, semantic_ready, note, kind) {
            Err(failure) => {
                return Err(failure);
            },
            Ok(Some(warning)) => {
                let ghost said = warning@;
                warnings.push(warning);
                assert(text::views(warnings@) =~= seq![said]);
            },
            Ok(None) => {},
        }
        Ok(
            FormatRun {
                engine,
                path: path.to_owned(),
                input: input.to_owned(),
                has_baseline,
                semantic_ready,
                kind,
                warnings,
                first: true,
            },
        )
    }

    /// The options of the first pass.
    pub fn first_options(observation_only: bool) -> (r: PolicyRunOptions)
        ensures
            r.observation_only == observation_only,
            r.blocked_policies@.len() == 0,
            r.allowed_edit_lines is None,
            r.skip_zero_edit_policies is None,
            r.previous_contract_failures@.len() == 0,
            r.retry_scope_stage == crate::run_options::RetryScopeStage::Full,
    {
        PolicyRunOptions { observation_only, ..PolicyRunOptions::default() }
    }

    /// Goes on after a pass. A change that no edit tells of is told, or taken
    /// back where it is too large.
    pub fn pass_done(&self, pass: FormatPassResult) -> (r: FormatAction)
        ensures
            ({
                let r1 = coordinator::told(self.input@, pass.policy_result@);
                match coordinator::pass_step(
                    self.engine.retry,
                    self.input@,
                    r1,
                    self.has_baseline,
                    self.first,
                ) {
                    PassStep::Keep => r is Keep && told_pass(self.input@, pass, r->Keep_pass)
                        && r->outcome == ClusterOutcome::Accepted && r->Keep_score == 1_000_000_000,
                    PassStep::CheckStructure => r is Check && told_pass(
                        self.input@,
                        pass,
                        r->Check_pass,
                    ) && !r->in_full,
                    PassStep::CheckFull => r is Check && told_pass(self.input@, pass, r->Check_pass)
                        && r->in_full,
                }
            }),
    {
        let mut pass = pass;
        FormatterEngine::normalize_untracked_text_delta(
            self.input.as_str(),
            &mut pass.policy_result,
        );
        match self.engine.after_pass(
            self.input.as_str(),
            &pass.policy_result,
            self.has_baseline,
            self.first,
        ) {
            PassStep::Keep => FormatAction::Keep {
                pass,
                outcome: ClusterOutcome::Accepted,
                score: 1_000_000_000,
            },
            PassStep::CheckStructure => FormatAction::Check { pass, in_full: false },
            PassStep::CheckFull => FormatAction::Check { pass, in_full: true },
        }
    }

    /// Goes on after a check. What the check says is added to the warnings of
    /// the run; the pass is kept.
    pub fn check_done(
        &mut self,
        pass: FormatPassResult,
        check: &PostEditCheckResult,
        before: Option<&SemanticContractSnapshot>,
    ) -> (r: FormatAction)
        ensures
            text::views(final(self).warnings@) == text::views(old(self).warnings@)
                + coordinator::check_warnings(check@, pass.policy_result@.edits),
            final(self).engine == old(self).engine,
            final(self).path == old(self).path,
            final(self).input == old(self).input,
            final(self).has_baseline == old(self).has_baseline,
            final(self).semantic_ready == old(self).semantic_ready,
            final(self).kind == old(self).kind,
            final(self).first == old(self).first,
            r is Keep,
            r->Keep_pass == pass,
            r->outcome == (if check.accepted || !old(self).first {
                ClusterOutcome::Accepted
            } else {
                ClusterOutcome::Regressed
            }),
            r->Keep_score == (match (old(self).first, check.accepted) {
                (true, true) => 1_000_000_000u32,
                (true, false) => 500_000_000u32,
                (false, true) => 850_000_000u32,
                (false, false) => 400_000_000u32,
            }),
    {
        let mut warnings: Vec<String> = Vec::new();
        std::mem::swap(&mut warnings, &mut self.warnings);
        let accepted = self.engine.accept_pass_result(
            &pass.policy_result,
            check,
            &mut warnings,
        ).is_some();
        match self.engine.after_check(self.first, accepted, check, &pass, before) {
            CheckStep::Keep { outcome, score } => {
                self.warnings = warnings;
                FormatAction::Keep { pass, outcome, score }
            },
            CheckStep::RunAgain { options } => {
                self.warnings = warnings;
                self.first = false;
                FormatAction::RunAgain { options }
            },
            CheckStep::Revert { attempts, score } => {
                let result = self.engine.reverted_result(
                    self.path.as_str(),
                    self.input.as_str(),
                    pass,
                    warnings,
                    attempts,
                );
                FormatAction::Revert { result, score }
            },
        }
    }

    /// What the accuracy gate decides on a pass that is kept.
    pub fn decide(&self, pass: &FormatPassResult) -> (r: AccuracyGateDecision)
        ensures
            accuracy_gate::is_gate_decision(
                r,
                self.engine.accuracy_gate,
                coordinator::gate_input(pass.policy_result@, self.semantic_ready, self.kind),
            ),
    {
        self.engine.decide(&pass.policy_result, self.semantic_ready, self.kind)
    }

    /// The lines that the edits of a pass name, of which its check is told.
    pub fn edited_lines(pass: &FormatPassResult) -> (r: BTreeSet<usize>)
        ensures
            r@ == lines_told(pass.policy_result@.edits),
    {
        let ghost all = pass.policy_result@.edits;
        let edits = &pass.policy_result.edits;
        let mut r = BTreeSet::<usize>::new();
        let mut i: usize = 0;
        assert(all == model::edit_views(edits@));
        assert(r@ =~= lines_told(all.take(0)));
        while i < edits.len()
            invariant
                i <= edits@.len(),
                all == model::edit_views(edits@),
                r@ == lines_told(all.take(i as int)),
            decreases edits@.len() - i,
        {
            r.insert(edits[i].line);
            proof {
                let head = all.take(i as int);
                let next = all.take(i + 1);
                assert(next[i as int] == edits@[i as int]@);
                assert forall|line: usize|
                    lines_told(next).contains(line) <==> lines_told(head).insert(
                        edits@[i as int].line,
                    ).contains(line) by {
                    if lines_told(next).contains(line) {
                        let k = choose|k: int|
                            0 <= k < next.len() && (#[trigger] next[k]).line == line;
                        if k < i {
                            assert(head[k] == next[k]);
                        }
                    }
                    if lines_told(head).contains(line) {
                        let k = choose|k: int|
                            0 <= k < head.len() && (#[trigger] head[k]).line == line;
                        assert(next[k] == head[k]);
                    }
                }
                assert(lines_told(next) =~= lines_told(head).insert(edits@[i as int].line));
            }
            i += 1;
        }
        assert(all.take(all.len() as int) =~= all);
        r
    }

    /// Finishes the run with a pass that is kept. `summary` is the text that
    /// sums the accuracy gate's decision up.
    pub fn finish(&self, pass: FormatPassResult, summary: &str) -> (r: Result<
        FormatPassResult,
        AccuracyGateFailure,
    >)
        ensures
            is_finished(*self, pass, summary@, r),
    {
        let ghost given = pass;
        let mut pass = pass;
        FormatterEngine::merge_warnings(self.warnings.as_slice(), &mut pass.policy_result);
        let ghost kept = pass.policy_result@;
        assert(kept == with_warnings(given.policy_result@, text::views(self.warnings@)));
        match self.engine.apply_gate(
            &mut pass,
            self.path.as_str(),
            self.semantic_ready,
            self.kind,
            summary,
        ) {
            Ok(()) => Ok(pass),
            Err(failure) => Err(failure),
        }
    }
}

/// What a run hands out is the text of the pass that it keeps, with its edits.
pub proof fn lemma_finished_keeps_text(
    run: FormatRun,
    pass: FormatPassResult,
    summary: Seq<char>,
    r: Result<FormatPassResult, AccuracyGateFailure>,
)
    requires
        is_finished(run, pass, summary, r),
        r is Ok,
    ensures
        r->Ok_0.policy_result@.text == pass.policy_result@.text,
        r->Ok_0.policy_result@.edits == pass.policy_result@.edits,
{
}

/// Where a run changes a file, its result has edits: for every pass that is
/// kept, a text that differs from the input comes with at least one.
pub proof fn lemma_changes_are_told(
    run: FormatRun,
    pass: FormatPassResult,
    told: FormatPassResult,
    summary: Seq<char>,
    r: Result<FormatPassResult, AccuracyGateFailure>,
)
    requires
        told_pass(run.input@, pass, told),
        is_finished(run, told, summary, r),
        r is Ok,
    ensures
        r->Ok_0.policy_result@.text != run.input@ ==> r->Ok_0.policy_result@.edits.len() > 0,
{
    coordinator::lemma_told_is_tracked(run.input@, pass.policy_result@);
}

/// Where checks are off and nothing is demanded of the file, a first pass is
/// kept without a look at it.
pub proof fn lemma_unchecked_pass_is_kept(run: FormatRun, pass: FormatPassResult)
    requires
        run.first,
        !run.engine.retry.post_edit_check_enabled,
    ensures
        coordinator::pass_step(
            run.engine.retry,
            run.input@,
            coordinator::told(run.input@, pass.policy_result@),
            run.has_baseline,
            run.first,
        ) == PassStep::Keep,
{
}

} // verus!
