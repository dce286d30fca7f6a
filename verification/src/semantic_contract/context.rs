//! What one snapshot says of itself.
use std::collections::BTreeSet;
use vstd::prelude::*;

use crate::lines;
use crate::lines::{extend_lines, line_hint};
use crate::model::warn;
use crate::semantic_contract::snapshot::{SemanticContractSnapshot, SnapshotView};
use crate::text;
use crate::text::decimal_of;

verus! {

broadcast use {
    vstd::std_specs::btree::group_btree_axioms,
    vstd::laws_cmp::group_laws_cmp,
};

/// Whether the semantics of one file are sound.
#[derive(Debug)]
pub struct SemanticContextAssessment {
    pub ready: bool,
    pub hard_failures: Vec<String>,
    pub warnings: Vec<String>,
    pub culprit_lines: BTreeSet<usize>,
}

/// Whether identities and provenances agree.
pub open spec fn identity_failures(s: SnapshotView) -> Seq<Seq<char>> {
    if s.identity_count > 0 {
        seq![
            "semantic symbol identity invariants failed: issues="@ + text::decimal(
                s.identity_count as nat,
            ) + " lines="@ + lines::hint(s.identity_lines, 8),
        ]
    } else {
        Seq::empty()
    }
}

/// The failures of a file: inconsistent identities, then inconsistent uses.
pub open spec fn context_failures(s: SnapshotView) -> Seq<Seq<char>> {
    if s.mismatch_count > 0 {
        identity_failures(s).push(
            "semantic usage-role consistency invariants failed: mismatches="@ + text::decimal(
                s.mismatch_count as nat,
            ) + " lines="@ + lines::hint(s.mismatch_lines, 8),
        )
    } else {
        identity_failures(s)
    }
}

/// A file that uses symbols and declares none draws a warning.
pub open spec fn context_warnings(s: SnapshotView) -> Seq<Seq<char>> {
    if s.summary.declaration_count == 0 && s.summary.reference_count > 0 {
        seq![
            "semantic context warning: references="@ + text::decimal(
                s.summary.reference_count as nat,
            ) + " but declarations=0"@,
        ]
    } else {
        Seq::empty()
    }
}

/// The lines of all failures.
pub open spec fn context_lines(s: SnapshotView) -> Set<usize> {
    let identity = if s.identity_count > 0 {
        s.identity_lines
    } else {
        Set::empty()
    };
    if s.mismatch_count > 0 {
        identity.union(s.mismatch_lines)
    } else {
        identity
    }
}

/// Assesses the semantics of one file.
pub fn evaluate(snapshot: &SemanticContractSnapshot) -> (r: SemanticContextAssessment)
    ensures
        r.ready == (snapshot@.identity_count == 0 && snapshot@.mismatch_count == 0),
        text::views(r.hard_failures@) == context_failures(snapshot@),
        text::views(r.warnings@) == context_warnings(snapshot@),
        r.culprit_lines@ == context_lines(snapshot@),
{
    let mut hard_failures: Vec<String> = Vec::new();
    let mut warnings: Vec<String> = Vec::new();
    let mut culprit_lines = BTreeSet::<usize>::new();
    assert(text::views(hard_failures@) =~= Seq::empty());
    assert(text::views(warnings@) =~= Seq::empty());
    assert(culprit_lines@ =~= Set::empty());
    if snapshot.issues.identity_count > 0 {
        let mut message = "semantic symbol identity invariants failed: issues=".to_owned();
        message.append(decimal_of(snapshot.issues.identity_count).as_str());
        message.append(" lines=");
        message.append(line_hint(&snapshot.issues.identity_lines, 8).as_str());
        warn(&mut hard_failures, message);
        extend_lines(&mut culprit_lines, &snapshot.issues.identity_lines);
        assert(culprit_lines@ =~= snapshot@.identity_lines);
    }
    assert(text::views(hard_failures@) =~= identity_failures(snapshot@));
    if snapshot.issues.mismatch_count > 0 {
        let mut message =
            "semantic usage-role consistency invariants failed: mismatches=".to_owned();
        message.append(decimal_of(snapshot.issues.mismatch_count).as_str());
        message.append(" lines=");
        message.append(line_hint(&snapshot.issues.mismatch_lines, 8).as_str());
        warn(&mut hard_failures, message);
        extend_lines(&mut culprit_lines, &snapshot.issues.mismatch_lines);
    }
    if snapshot.summary.declaration_count == 0 && snapshot.summary.reference_count > 0 {
        let mut message = "semantic context warning: references=".to_owned();
        message.append(decimal_of(snapshot.summary.reference_count).as_str());
        message.append(" but declarations=0");
        warn(&mut warnings, message);
    }
    assert(text::views(warnings@) =~= context_warnings(snapshot@));
    assert(text::views(hard_failures@).len() == hard_failures@.len());
    SemanticContextAssessment {
        ready: hard_failures.len() == 0,
        hard_failures,
        warnings,
        culprit_lines,
    }
}

} // verus!
