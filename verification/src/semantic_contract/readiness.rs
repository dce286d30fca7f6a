//! Whether the semantic checks can be made at all.
use vstd::prelude::*;

use crate::model::warn;
use crate::text;
use crate::text::join;

verus! {

/// Which parsers are missing.
#[derive(Clone, Copy, Debug, PartialEq, Eq, Structural)]
pub struct SemanticReadinessInput {
    pub tree_unavailable: bool,
    pub clang_unavailable: bool,
}

/// Whether the file is ready for semantic checks, and what stands against it.
#[derive(Debug)]
pub struct SemanticReadinessAssessment {
    pub ready: bool,
    pub reasons: Vec<String>,
}

/// The reasons why the parsers do not suffice.
pub open spec fn readiness_reasons(input: SemanticReadinessInput) -> Seq<Seq<char>> {
    let tree = if input.tree_unavailable {
        seq!["tree-sitter parser unavailable"@]
    } else {
        Seq::empty()
    };
    let both = if input.clang_unavailable {
        tree.push("clang parser unavailable"@)
    } else {
        tree
    };
    if both.len() == 0 {
        both
    } else {
        both.push("semantic readiness: parsers unavailable"@)
    }
}

/// The reasons in one line.
pub open spec fn readiness_summary(reasons: Seq<Seq<char>>) -> Seq<char> {
    if reasons.len() == 0 {
        "semantic readiness satisfied"@
    } else {
        text::joined(reasons, "; "@)
    }
}

impl SemanticReadinessAssessment {
    pub fn summary(&self) -> (r: String)
        ensures
            r@ == readiness_summary(text::views(self.reasons@)),
    {
        if self.reasons.len() == 0 {
            return "semantic readiness satisfied".to_owned();
        }
        join(self.reasons.as_slice(), "; ")
    }
}

/// A file is ready where both parsers are available.
pub fn evaluate(input: SemanticReadinessInput) -> (r: SemanticReadinessAssessment)
    ensures
        r.ready == (!input.tree_unavailable && !input.clang_unavailable),
        text::views(r.reasons@) == readiness_reasons(input),
{
    let mut reasons: Vec<String> = Vec::new();
    assert(text::views(reasons@) =~= Seq::empty());
    if input.tree_unavailable {
        warn(&mut reasons, "tree-sitter parser unavailable".to_owned());
        assert(text::views(reasons@) =~= seq!["tree-sitter parser unavailable"@]);
    }
    if input.clang_unavailable {
        warn(&mut reasons, "clang parser unavailable".to_owned());
    }
    let ready = reasons.len() == 0;
    assert(text::views(reasons@).len() == reasons@.len());
    if !ready {
        warn(&mut reasons, "semantic readiness: parsers unavailable".to_owned());
    }
    SemanticReadinessAssessment { ready, reasons }
}

} // verus!
