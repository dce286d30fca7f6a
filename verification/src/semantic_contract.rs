//! The semantic contract: what an edit must leave as it was.
use std::collections::BTreeSet;
use vstd::prelude::*;

use crate::catalog;
use crate::catalog::policy_catalog;
use crate::file_context::SemanticFileContext;
use crate::text;

pub mod clause;
pub mod context;
pub mod readiness;
pub mod snapshot;
pub mod transition;

pub use crate::semantic_contract::clause::{
    clause_list, PolicyGuidanceMode, SemanticInvariantClause, SemanticInvariantSpec,
};
pub use crate::semantic_contract::context::SemanticContextAssessment;
pub use crate::semantic_contract::readiness::{
    SemanticReadinessAssessment, SemanticReadinessInput,
};
pub use crate::semantic_contract::snapshot::{
    ScopeStructure, SemanticContractSnapshot, SemanticIssues, SemanticScopeCounts, SymbolIdentity,
};
pub use crate::semantic_contract::transition::{
    SemanticTransitionAssessment, Severity, TransitionPenalties,
};

verus! {

/// The rules by which the semantics of a file are judged.
#[derive(Clone, Copy, Debug)]
pub struct SemanticContract {
    _private: (),
}

/// Whether a policy holds its edits to the contract without exception.
pub open spec fn guidance(policy: Seq<char>, semantic_hard_invariant: bool) -> PolicyGuidanceMode {
    if semantic_hard_invariant || catalog::named_behavior(policy).hard_invariant {
        PolicyGuidanceMode::HardInvariant
    } else {
        PolicyGuidanceMode::SoftGuideline
    }
}

impl SemanticContract {
    pub fn new() -> (r: SemanticContract) {
        SemanticContract { _private: () }
    }

    /// All clauses with what they demand.
    pub fn invariant_specs() -> (r: Vec<SemanticInvariantSpec>)
        ensures
            r@.len() == clause::all_clauses().len(),
            forall|i: int|
                0 <= i < r@.len() ==> (#[trigger] r@[i]).specifies(clause::all_clauses()[i]),
    {
        let clauses = clause_list();
        let mut r: Vec<SemanticInvariantSpec> = Vec::new();
        let mut i: usize = 0;
        while i < clauses.len()
            invariant
                i <= clauses@.len(),
                clauses@ == clause::all_clauses(),
                r@.len() == i,
                forall|k: int|
                    0 <= k < i ==> (#[trigger] r@[k]).specifies(clause::all_clauses()[k]),
            decreases clauses@.len() - i,
        {
            r.push(SemanticInvariantSpec::of(clauses[i]));
            i += 1;
        }
        r
    }

    /// What one clause demands. Every clause has an entry.
    pub fn invariant_spec(clause: SemanticInvariantClause) -> (r: Option<SemanticInvariantSpec>)
        ensures
            r is Some,
            r->Some_0.specifies(clause),
    {
        Some(SemanticInvariantSpec::of(clause))
    }

    /// Whether a policy holds its edits to the contract without exception:
    /// where its settings say so, or the catalog.
    pub fn policy_guidance_mode(policy_name: &str, semantic_hard_invariant: bool) -> (r:
        PolicyGuidanceMode)
        ensures
            r == guidance(policy_name@, semantic_hard_invariant),
    {
        if semantic_hard_invariant {
            return PolicyGuidanceMode::HardInvariant;
        }
        if policy_catalog().behavior(policy_name).hard_invariant {
            return PolicyGuidanceMode::HardInvariant;
        }
        PolicyGuidanceMode::SoftGuideline
    }

    pub fn evaluate_readiness(&self, input: SemanticReadinessInput) -> (r:
        SemanticReadinessAssessment)
        ensures
            r.ready == (!input.tree_unavailable && !input.clang_unavailable),
            text::views(r.reasons@) == readiness::readiness_reasons(input),
    {
        readiness::evaluate(input)
    }

    /// A file with a snapshot is ready where the parsers are available and the
    /// snapshot is sound.
    pub fn evaluate_readiness_with_snapshot(
        &self,
        input: SemanticReadinessInput,
        snapshot: Option<&SemanticContractSnapshot>,
    ) -> (r: SemanticReadinessAssessment)
        ensures
            r.ready == (!input.tree_unavailable && !input.clang_unavailable && (snapshot is Some
                ==> snapshot->Some_0@.identity_count == 0 && snapshot->Some_0@.mismatch_count
                == 0)),
            text::views(r.reasons@) == if snapshot is Some {
                readiness::readiness_reasons(input) + context::context_failures(
                    snapshot->Some_0@,
                )
            } else {
                readiness::readiness_reasons(input)
            },
    {
        let mut readiness = self.evaluate_readiness(input);
        if let Some(snapshot) = snapshot {
            let mut context = self.evaluate_context(snapshot);
            let ghost was = readiness.reasons@;
            let ghost more = context.hard_failures@;
            readiness.reasons.append(&mut context.hard_failures);
            proof {
                assert(text::views(readiness.reasons@) =~= text::views(was) + text::views(more));
                assert(text::views(readiness.reasons@).len() == readiness.reasons@.len());
            }
            readiness.ready = readiness.reasons.len() == 0;
        }
        readiness
    }

    /// Takes the snapshot of a file.
    pub fn snapshot(&self, context: &SemanticFileContext) -> (r: SemanticContractSnapshot)
        ensures
            r@ == snapshot::snapshot_of(*context),
    {
        snapshot::build(context)
    }

    /// Assesses the semantics of one file.
    pub fn evaluate_context(&self, snapshot: &SemanticContractSnapshot) -> (r:
        SemanticContextAssessment)
        ensures
            r.ready == (snapshot@.identity_count == 0 && snapshot@.mismatch_count == 0),
            text::views(r.hard_failures@) == context::context_failures(snapshot@),
            text::views(r.warnings@) == context::context_warnings(snapshot@),
            r.culprit_lines@ == context::context_lines(snapshot@),
    {
        context::evaluate(snapshot)
    }

    /// Compares the semantics of a file before and after an edit.
    pub fn evaluate_transition(
        &self,
        before: &SemanticContractSnapshot,
        after: &SemanticContractSnapshot,
        ref_drop_tol: usize,
        scope_drift_tol: usize,
        identity_shift_tol: usize,
        edited_lines: Option<&BTreeSet<usize>>,
        penalties: TransitionPenalties,
        severity: &str,
    ) -> (r: SemanticTransitionAssessment)
        ensures
            r@ == transition::transition(
                before@,
                after@,
                ref_drop_tol,
                scope_drift_tol,
                identity_shift_tol,
                transition::lines_view(edited_lines),
                penalties,
                severity@,
            ),
    {
        transition::evaluate(
            before,
            after,
            ref_drop_tol,
            scope_drift_tol,
            identity_shift_tol,
            edited_lines,
            penalties,
            severity,
        )
    }
}

} // verus!
