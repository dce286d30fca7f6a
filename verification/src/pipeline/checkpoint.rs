//! The check of a text after each policy.
use std::collections::BTreeSet;
use vstd::prelude::*;

use crate::model;
use crate::model::{Edit, EditView};
use crate::pipeline::edit_utils;
use crate::pipeline::edit_utils::apply_edits_lenient;
use crate::pipeline::suppression;
use crate::pipeline::suppression::keep_edits;
use crate::syntax;
use crate::syntax::tree_error_stats;
use crate::text;
use crate::text::decimal_of;

verus! {

broadcast use {
    vstd::std_specs::btree::group_btree_axioms,
    vstd::laws_cmp::group_laws_cmp,
};

/// The errors in a syntax tree.
#[derive(Debug)]
pub struct TreeErrors {
    pub error_nodes: usize,
    pub error_lines: BTreeSet<usize>,
}

/// The contents of `TreeErrors`.
#[verifier::ext_equal]
pub ghost struct TreeErrorsView {
    pub error_nodes: nat,
    pub error_lines: Set<usize>,
}

impl View for TreeErrors {
    type V = TreeErrorsView;

    open spec fn view(&self) -> TreeErrorsView {
        TreeErrorsView { error_nodes: self.error_nodes as nat, error_lines: self.error_lines@ }
    }
}

/// The errors in a tree.
pub open spec fn errors_in(tree: tree_sitter::Tree) -> TreeErrorsView {
    TreeErrorsView {
        error_nodes: syntax::broken_count(syntax::tree_nodes(tree)),
        error_lines: syntax::covered_lines(syntax::tree_nodes(tree), |n| syntax::is_broken(n)),
    }
}

/// The errors in a tree, where there is one.
pub open spec fn errors_seen(tree: Option<&tree_sitter::Tree>) -> Option<TreeErrorsView> {
    match tree {
        Some(t) => Some(errors_in(*t)),
        None => None,
    }
}

/// How many errors there are; none where there is no tree.
pub open spec fn error_total(errors: Option<TreeErrorsView>) -> nat {
    match errors {
        Some(e) => e.error_nodes,
        None => 0,
    }
}

/// What is known of the errors in a tree.
pub open spec fn errors_view(errors: Option<&TreeErrors>) -> Option<TreeErrorsView> {
    match errors {
        Some(e) => Some(e@),
        None => None,
    }
}

/// How many errors the compiler reports before and after a policy.
#[derive(Clone, Copy, Debug, PartialEq, Eq, Structural)]
pub struct ClangErrors {
    pub before: usize,
    pub after: usize,
}

/// What is done with a policy's text.
#[derive(Debug)]
pub enum PolicyCheckpointResult {
    /// It stays; the new tree can be used where it was looked at.
    Accept { validated: bool },
    /// The edits that cause no error stay.
    PartialRollback { recovered_text: String, recovered_edits: Vec<Edit>, warning: String },
    /// Nothing stays.
    Rollback { reason: String, after_error_count: usize },
}

/// What is left of a policy's edits without those on lines with errors.
pub open spec fn safe_edits(edits: Seq<EditView>, error_lines: Set<usize>) -> Seq<EditView> {
    suppression::kept_edits(edits, error_lines)
}

/// How many errors are new.
pub open spec fn new_errors(before: nat, after: nat) -> nat {
    if after > before {
        (after - before) as nat
    } else {
        0
    }
}

/// Why a policy's text is taken back.
pub open spec fn rollback_reason(policy: Seq<char>, before: nat, after: nat) -> Seq<char> {
    "checkpoint: '"@ + policy + "' introduced "@ + text::decimal(new_errors(before, after))
        + " new error node(s) — rolling back"@
}

/// What is said of a text that is taken back in part.
pub open spec fn partial_warning(
    policy: Seq<char>,
    kept: nat,
    all: nat,
    error_lines: nat,
) -> Seq<char> {
    "checkpoint: '"@ + policy + "' partial rollback recovered "@ + text::decimal(kept) + " of "@
        + text::decimal(all) + " edits ("@ + text::decimal(error_lines)
        + " error lines excluded)"@
}

/// Whether the text stays as it is: it did not change, it could not be parsed
/// again, it has no more syntax errors than before, or the compiler finds no
/// more.
pub open spec fn is_accepted(
    text_changed: bool,
    before_errors: nat,
    after: Option<TreeErrorsView>,
    clang: Option<ClangErrors>,
) -> bool {
    !text_changed || after is None || after->Some_0.error_nodes <= before_errors || (clang is Some
        && clang->Some_0.after <= clang->Some_0.before)
}

/// Whether the edits that cause no error stay: there are some, and the text
/// with them has no more errors than before.
pub open spec fn is_recovered(
    edits: Seq<EditView>,
    before_errors: nat,
    after: TreeErrorsView,
    recovered_errors: Option<nat>,
) -> bool {
    safe_edits(edits, after.error_lines).len() > 0 && recovered_errors is Some
        && recovered_errors->Some_0 <= before_errors
}

/// Whether this is what is done with a policy's text.
pub open spec fn is_checkpoint(
    r: PolicyCheckpointResult,
    policy: Seq<char>,
    current: Seq<char>,
    edits: Seq<EditView>,
    text_changed: bool,
    before_errors: nat,
    after: Option<TreeErrorsView>,
    clang: Option<ClangErrors>,
    recovered_errors: Option<nat>,
) -> bool {
    if is_accepted(text_changed, before_errors, after, clang) {
        r == (PolicyCheckpointResult::Accept { validated: text_changed && after is Some })
    } else if is_recovered(edits, before_errors, after->Some_0, recovered_errors) {
        let kept = safe_edits(edits, after->Some_0.error_lines);
        match r {
            PolicyCheckpointResult::PartialRollback {
                recovered_text,
                recovered_edits,
                warning,
            } => {
                &&& recovered_text@ == edit_utils::lenient_text(current, kept)
                &&& model::edit_views(recovered_edits@) == kept
                &&& warning@ == partial_warning(
                    policy,
                    kept.len(),
                    edits.len(),
                    after->Some_0.error_lines.len(),
                )
            },
            _ => false,
        }
    } else {
        match r {
            PolicyCheckpointResult::Rollback { reason, after_error_count } => reason@
                == rollback_reason(policy, before_errors, after->Some_0.error_nodes)
                && after_error_count == after->Some_0.error_nodes,
            _ => false,
        }
    }
}

/// The text with the edits that cause no error, where there are any. It is
/// this text that has to be parsed before a rollback in part.
pub fn recovered_text(current: &str, edits: &[Edit], error_lines: &BTreeSet<usize>) -> (r: Option<
    String,
>)
    ensures
        match r {
            Some(t) => {
                let kept = safe_edits(model::edit_views(edits@), error_lines@);
                kept.len() > 0 && t@ == edit_utils::lenient_text(current@, kept)
            },
            None => safe_edits(model::edit_views(edits@), error_lines@).len() == 0,
        },
{
    let kept = keep_edits(edits, error_lines);
    assert(model::edit_views(kept@).len() == kept@.len());
    if kept.len() == 0 {
        return None;
    }
    Some(apply_edits_lenient(current, kept.as_slice()))
}

/// The edits that stay in a rollback in part.
fn attempt_partial_rollback(
    policy_name: &str,
    current: &str,
    edits: &[Edit],
    before_errors: usize,
    error_lines: &BTreeSet<usize>,
    recovered_errors: Option<usize>,
) -> (r: Option<PolicyCheckpointResult>)
    ensures
        ({
            let all = model::edit_views(edits@);
            let kept = safe_edits(all, error_lines@);
            let recovers = kept.len() > 0 && recovered_errors is Some && recovered_errors->Some_0
                <= before_errors;
            match r {
                None => !recovers,
                Some(
                    PolicyCheckpointResult::PartialRollback {
                        recovered_text,
                        recovered_edits,
                        warning,
                    },
                ) => {
                    &&& recovers
                    &&& recovered_text@ == edit_utils::lenient_text(current@, kept)
                    &&& model::edit_views(recovered_edits@) == kept
                    &&& warning@ == partial_warning(
                        policy_name@,
                        kept.len(),
                        all.len(),
                        error_lines@.len(),
                    )
                },
                _ => false,
            }
        }),
{
    let kept = keep_edits(edits, error_lines);
    assert(model::edit_views(kept@).len() == kept@.len());
    assert(model::edit_views(edits@).len() == edits@.len());
    if kept.len() == 0 {
        return None;
    }
    match recovered_errors {
        None => None,
        Some(errors) => {
            if errors > before_errors {
                return None;
            }
            let mut warning = "checkpoint: '".to_owned();
            warning.append(policy_name);
            warning.append("' partial rollback recovered ");
            warning.append(decimal_of(kept.len()).as_str());
            warning.append(" of ");
            warning.append(decimal_of(edits.len()).as_str());
            warning.append(" edits (");
            warning.append(decimal_of(error_lines.len()).as_str());
            warning.append(" error lines excluded)");
            Some(
                PolicyCheckpointResult::PartialRollback {
                    recovered_text: apply_edits_lenient(current, kept.as_slice()),
                    recovered_edits: kept,
                    warning,
                },
            )
        },
    }
}

/// A count, where there is one.
pub open spec fn count_view(n: Option<usize>) -> Option<nat> {
    match n {
        Some(n) => Some(n as nat),
        None => None,
    }
}

fn tree_errors(tree: &tree_sitter::Tree) -> (r: TreeErrors)
    ensures
        r@ == errors_in(*tree),
{
    let stats = tree_error_stats(tree);
    TreeErrors { error_nodes: stats.error_nodes, error_lines: stats.error_lines }
}

/// Whether the compiler is asked: the text has more syntax errors than before.
pub fn asks_clang(
    text_changed: bool,
    before: Option<&tree_sitter::Tree>,
    after: Option<&tree_sitter::Tree>,
) -> (r: bool)
    ensures
        r == !is_accepted(text_changed, error_total(errors_seen(before)), errors_seen(after), None),
{
    match after {
        Some(tree) => {
            let before_errors: usize = match before {
                Some(tree) => tree_error_stats(tree).error_nodes,
                None => 0,
            };
            text_changed && tree_error_stats(tree).error_nodes > before_errors
        },
        None => false,
    }
}

/// The text that has to be parsed before a rollback in part, where there may
/// be one.
pub fn text_to_recover(
    current: &str,
    edits: &[Edit],
    text_changed: bool,
    before: Option<&tree_sitter::Tree>,
    after: Option<&tree_sitter::Tree>,
    clang: Option<ClangErrors>,
) -> (r: Option<String>)
    ensures
        ({
            let kept = safe_edits(model::edit_views(edits@), errors_in(*after->Some_0).error_lines);
            if !is_accepted(
                text_changed,
                error_total(errors_seen(before)),
                errors_seen(after),
                clang,
            ) && kept.len() > 0 {
                r matches Some(t) && t@ == edit_utils::lenient_text(current@, kept)
            } else {
                r is None
            }
        }),
{
    if !asks_clang(text_changed, before, after) {
        return None;
    }
    if let Some(errors) = clang {
        if errors.after <= errors.before {
            return None;
        }
    }
    match after {
        Some(tree) => recovered_text(current, edits, &tree_errors(tree).error_lines),
        None => None,
    }
}

/// Decides what is done with a policy's text, from the trees of the text
/// before and after it, what the compiler reports where it was asked, and the
/// tree of the recovered text where that was parsed.
pub fn checkpoint_policy_stage(
    policy_name: &str,
    current: &str,
    edits: &[Edit],
    text_changed: bool,
    before: Option<&tree_sitter::Tree>,
    after: Option<&tree_sitter::Tree>,
    clang: Option<ClangErrors>,
    recovered: Option<&tree_sitter::Tree>,
) -> (r: PolicyCheckpointResult)
    ensures
        is_checkpoint(
            r,
            policy_name@,
            current@,
            model::edit_views(edits@),
            text_changed,
            error_total(errors_seen(before)),
            errors_seen(after),
            clang,
            match recovered {
                Some(tree) => Some(errors_in(*tree).error_nodes),
                None => None,
            },
        ),
{
    let before_errors: usize = match before {
        Some(tree) => tree_error_stats(tree).error_nodes,
        None => 0,
    };
    let recovered_errors: Option<usize> = match recovered {
        Some(tree) => Some(tree_error_stats(tree).error_nodes),
        None => None,
    };
    match after {
        Some(tree) => {
            let errors = tree_errors(tree);
            checkpoint_with_errors(
                policy_name,
                current,
                edits,
                text_changed,
                before_errors,
                Some(&errors),
                clang,
                recovered_errors,
            )
        },
        None => checkpoint_with_errors(
            policy_name,
            current,
            edits,
            text_changed,
            before_errors,
            None,
            clang,
            recovered_errors,
        ),
    }
}

/// Decides what is done with a policy's text, from what the parsers report:
/// the errors of the tree before and after, those of the compiler where it was
/// asked, and those of the recovered text where it was parsed.
pub fn checkpoint_with_errors(
    policy_name: &str,
    current: &str,
    edits: &[Edit],
    text_changed: bool,
    before_errors: usize,
    after: Option<&TreeErrors>,
    clang: Option<ClangErrors>,
    recovered_errors: Option<usize>,
) -> (r: PolicyCheckpointResult)
    ensures
        is_checkpoint(
            r,
            policy_name@,
            current@,
            model::edit_views(edits@),
            text_changed,
            before_errors as nat,
            errors_view(after),
            clang,
            count_view(recovered_errors),
        ),
{
    if !text_changed {
        return PolicyCheckpointResult::Accept { validated: false };
    }
    let after = match after {
        Some(after) => after,
        None => {
            return PolicyCheckpointResult::Accept { validated: false };
        },
    };
    if after.error_nodes <= before_errors {
        return PolicyCheckpointResult::Accept { validated: true };
    }
    if let Some(errors) = clang {
        if errors.after <= errors.before {
            return PolicyCheckpointResult::Accept { validated: true };
        }
    }
    let partial = attempt_partial_rollback(
        policy_name,
        current,
        edits,
        before_errors,
        &after.error_lines,
        recovered_errors,
    );
    if let Some(partial) = partial {
        return partial;
    }
    let mut reason = "checkpoint: '".to_owned();
    reason.append(policy_name);
    reason.append("' introduced ");
    reason.append(decimal_of(after.error_nodes - before_errors).as_str());
    reason.append(" new error node(s) — rolling back");
    PolicyCheckpointResult::Rollback { reason, after_error_count: after.error_nodes }
}

/// A text that is taken back has more syntax errors than the one before it.
pub proof fn lemma_rollback_needs_new_errors(
    r: PolicyCheckpointResult,
    policy: Seq<char>,
    current: Seq<char>,
    edits: Seq<EditView>,
    text_changed: bool,
    before_errors: nat,
    after: Option<TreeErrorsView>,
    clang: Option<ClangErrors>,
    recovered_errors: Option<nat>,
)
    requires
        is_checkpoint(
            r,
            policy,
            current,
            edits,
            text_changed,
            before_errors,
            after,
            clang,
            recovered_errors,
        ),
        r is Rollback,
    ensures
        text_changed,
        after is Some,
        after->Some_0.error_nodes > before_errors,
        r->after_error_count > 0,
{
}

/// What is done with a policy's text. It stays as it is where it did not
/// change, could not be parsed, has no more syntax errors than before, or makes
/// the compiler report no more errors. Else the edits that are on no line with
/// an error stay, where there are some and they leave no more errors than
/// before; and else nothing stays.
pub proof fn lemma_what_stays_of_a_text(
    r: PolicyCheckpointResult,
    policy: Seq<char>,
    current: Seq<char>,
    edits: Seq<EditView>,
    text_changed: bool,
    before_errors: nat,
    after: Option<TreeErrorsView>,
    clang: Option<ClangErrors>,
    recovered_errors: Option<nat>,
    e: EditView,
)
    requires
        is_checkpoint(
            r,
            policy,
            current,
            edits,
            text_changed,
            before_errors,
            after,
            clang,
            recovered_errors,
        ),
    ensures
        r is Accept <==> !text_changed || after is None || after->Some_0.error_nodes
            <= before_errors || (clang is Some && clang->Some_0.after <= clang->Some_0.before),
        r is PartialRollback ==> {
            let kept = model::edit_views(r->recovered_edits@);
            &&& recovered_errors is Some && recovered_errors->Some_0 <= before_errors
            &&& kept.len() > 0
            &&& kept.contains(e) <==> edits.contains(e) && !after->Some_0.error_lines.contains(
                e.line,
            )
            &&& r->recovered_text@ == edit_utils::lenient_text(current, kept)
        },
        r is Rollback ==> {
            ||| recovered_errors is None
            ||| recovered_errors->Some_0 > before_errors
            ||| !(edits.contains(e) && !after->Some_0.error_lines.contains(e.line))
        },
{
    if after is Some {
        suppression::lemma_kept_edits_exactly(edits, after->Some_0.error_lines, e);
    }
}

} // verus!
