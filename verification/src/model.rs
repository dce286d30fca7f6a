//! What a policy hands back: edits, violations and warnings.
use vstd::prelude::*;

use crate::text;
use crate::text::str_eq;

verus! {

/// A change of one line, as a policy records it. An empty `before` inserts a
/// line, an empty `after` deletes one.
#[derive(Debug)]
pub struct Edit {
    pub policy: String,
    pub line: usize,
    pub before: String,
    pub after: String,
}

/// The contents of an `Edit`.
pub ghost struct EditView {
    pub policy: Seq<char>,
    pub line: usize,
    pub before: Seq<char>,
    pub after: Seq<char>,
}

impl View for Edit {
    type V = EditView;

    open spec fn view(&self) -> EditView {
        EditView {
            policy: self.policy@,
            line: self.line,
            before: self.before@,
            after: self.after@,
        }
    }
}

impl EditView {
    /// Whether the edit names a line and changes it.
    pub open spec fn changes(self) -> bool {
        self.line > 0 && self.before != self.after
    }

    /// Whether the edit only adds a line.
    pub open spec fn inserts(self) -> bool {
        self.before.len() == 0 && self.after.len() > 0
    }

    /// Whether the edit only takes a line away.
    pub open spec fn deletes(self) -> bool {
        self.before.len() > 0 && self.after.len() == 0
    }
}

impl Edit {
    /// Whether the edit names a line and changes it.
    pub fn is_change(&self) -> (r: bool)
        ensures
            r == self@.changes(),
    {
        self.line > 0 && !str_eq(self.before.as_str(), self.after.as_str())
    }
}

impl Clone for Edit {
    fn clone(&self) -> (r: Edit)
        ensures
            r@ == self@,
    {
        Edit {
            policy: self.policy.clone(),
            line: self.line,
            before: self.before.clone(),
            after: self.after.clone(),
        }
    }
}

/// The contents of a list of edits.
pub open spec fn edit_views(edits: Seq<Edit>) -> Seq<EditView> {
    edits.map_values(|e: Edit| e@)
}

/// Something that a policy objects to.
#[derive(Debug)]
pub struct Violation {
    pub policy: String,
    pub message: String,
    pub line: usize,
    pub column: Option<usize>,
}

/// The contents of a `Violation`.
pub ghost struct ViolationView {
    pub policy: Seq<char>,
    pub message: Seq<char>,
    pub line: usize,
    pub column: Option<usize>,
}

impl View for Violation {
    type V = ViolationView;

    open spec fn view(&self) -> ViolationView {
        ViolationView {
            policy: self.policy@,
            message: self.message@,
            line: self.line,
            column: self.column,
        }
    }
}

impl Clone for Violation {
    fn clone(&self) -> (r: Violation)
        ensures
            r@ == self@,
    {
        Violation {
            policy: self.policy.clone(),
            message: self.message.clone(),
            line: self.line,
            column: self.column,
        }
    }
}

/// The contents of a list of violations.
pub open spec fn violation_views(violations: Seq<Violation>) -> Seq<ViolationView> {
    violations.map_values(|v: Violation| v@)
}

/// The result of one policy on one text.
#[derive(Debug)]
pub struct PolicyResult {
    pub text: String,
    pub violations: Vec<Violation>,
    pub edits: Vec<Edit>,
    pub warnings: Vec<String>,
    pub changed: bool,
}

/// The contents of a `PolicyResult`.
#[verifier::ext_equal]
pub ghost struct ResultView {
    pub text: Seq<char>,
    pub violations: Seq<ViolationView>,
    pub edits: Seq<EditView>,
    pub warnings: Seq<Seq<char>>,
    pub changed: bool,
}

impl View for PolicyResult {
    type V = ResultView;

    open spec fn view(&self) -> ResultView {
        ResultView {
            text: self.text@,
            violations: violation_views(self.violations@),
            edits: edit_views(self.edits@),
            warnings: text::views(self.warnings@),
            changed: self.changed,
        }
    }
}

/// Adds a warning.
pub fn warn(warnings: &mut Vec<String>, warning: String)
    ensures
        text::views(final(warnings)@) == text::views(old(warnings)@).push(warning@),
{
    let ghost was = warnings@;
    warnings.push(warning);
    assert(text::views(warnings@) =~= text::views(was).push(warning@));
}

} // verus!
