//! What is known of a file before it is edited.
use vstd::prelude::*;

use crate::model::warn;
use crate::post_check::{ClangReport, PostEditCheckBaseline, PostEditChecker, TreeReport};
use crate::semantic_contract;
use crate::semantic_contract::snapshot::SnapshotView;
use crate::semantic_contract::{SemanticContractSnapshot, SemanticReadinessInput};
use crate::text;

verus! {

/// What is said of a parser that is not available before the edit.
pub open spec fn parser_warning(fails: bool, tree: bool, error: Seq<char>) -> Seq<char> {
    if fails {
        if tree {
            "post-edit check failed: tree-sitter parser unavailable before edit: "@ + error
        } else {
            "post-edit check failed: clang parser unavailable before edit: "@ + error
        }
    } else if tree {
        "post-edit check warning (before tree): "@ + error
    } else {
        "post-edit check warning (before clang): "@ + error
    }
}

/// The warnings of a baseline: parsers that are not available, then what the
/// snapshot says.
pub open spec fn baseline_warnings(
    fails: bool,
    tree: Result<TreeReport, String>,
    clang: Option<Result<ClangReport, String>>,
    s: SnapshotView,
) -> Seq<Seq<char>> {
    let first = match tree {
        Ok(_) => Seq::empty(),
        Err(error) => seq![parser_warning(fails, true, error@)],
    };
    let second = match clang {
        Some(Err(error)) => first.push(parser_warning(fails, false, error@)),
        _ => first,
    };
    second + semantic_contract::context::context_warnings(s)
}

/// What a baseline makes of the reports.
pub open spec fn is_baseline(
    b: PostEditCheckBaseline,
    fails: bool,
    tree: Result<TreeReport, String>,
    clang: Option<Result<ClangReport, String>>,
    s: SnapshotView,
) -> bool {
    let input = SemanticReadinessInput {
        tree_unavailable: fails && tree is Err,
        clang_unavailable: fails && clang is Some && clang->Some_0 is Err,
    };
    let ready = !input.tree_unavailable && !input.clang_unavailable && s.identity_count == 0
        && s.mismatch_count == 0;
    &&& match tree {
        Ok(report) => b.before_tree_error == Some(report.has_error) && b.before_tree_error_ratio
            == Some(report.ratio),
        Err(_) => b.before_tree_error is None && b.before_tree_error_ratio is None,
    }
    &&& match clang {
        Some(Ok(report)) => {
            &&& b.before_clang_error_count == Some(report.error_count)
            &&& b.before_clang_fatal_count == Some(report.summary.fatal)
            &&& b.before_clang_summary == Some(report.summary)
            &&& b.before_clang_diagnostic_entries == Some(report.entries)
            &&& b.before_clang_error_lines == Some(report.error_lines)
        },
        _ => {
            &&& b.before_clang_error_count is None
            &&& b.before_clang_fatal_count is None
            &&& b.before_clang_summary is None
            &&& b.before_clang_diagnostic_entries is None
            &&& b.before_clang_error_lines is None
        },
    }
    &&& b.before_tree_unavailable == input.tree_unavailable
    &&& b.before_clang_unavailable == input.clang_unavailable
    &&& b.before_semantic_snapshot is Some
    &&& b.before_semantic_snapshot->Some_0@ == s
    &&& b.before_semantic_ready == ready
    &&& text::views(b.warnings@) == baseline_warnings(fails, tree, clang, s)
    &&& b.semantic_readiness_note is Some <==> !ready
    &&& !ready ==> b.semantic_readiness_note->Some_0@
        == semantic_contract::readiness::readiness_summary(
        semantic_contract::readiness::readiness_reasons(input)
            + semantic_contract::context::context_failures(s),
    )
}

impl PostEditChecker {
    /// Takes down what the parsers report of a file before it is edited.
    /// Without a report of the compiler, it was left out.
    pub fn build_baseline(
        &self,
        tree: Result<TreeReport, String>,
        clang: Option<Result<ClangReport, String>>,
        snapshot: SemanticContractSnapshot,
    ) -> (r: PostEditCheckBaseline)
        ensures
            is_baseline(r, self.fail_on_parser_unavailable, tree, clang, snapshot@),
    {
        let mut baseline = PostEditCheckBaseline::default();
        let fails = self.fail_on_parser_unavailable;
        assert(text::views(baseline.warnings@) =~= Seq::empty());
        match tree {
            Ok(report) => {
                baseline.before_tree_error = Some(report.has_error);
                baseline.before_tree_error_ratio = Some(report.ratio);
            },
            Err(error) => {
                let mut message = if fails {
                    baseline.before_tree_unavailable = true;
                    "post-edit check failed: tree-sitter parser unavailable before edit: ".to_owned()
                } else {
                    "post-edit check warning (before tree): ".to_owned()
                };
                message.append(error.as_str());
                warn(&mut baseline.warnings, message);
                assert(text::views(baseline.warnings@) =~= seq![
                    parser_warning(fails, true, error@),
                ]);
            },
        }
        match clang {
            Some(Ok(report)) => {
                baseline.before_clang_error_count = Some(report.error_count);
                baseline.before_clang_fatal_count = Some(report.summary.fatal);
                baseline.before_clang_summary = Some(report.summary);
                baseline.before_clang_diagnostic_entries = Some(report.entries);
                baseline.before_clang_error_lines = Some(report.error_lines);
            },
            Some(Err(error)) => {
                let mut message = if fails {
                    baseline.before_clang_unavailable = true;
                    "post-edit check failed: clang parser unavailable before edit: ".to_owned()
                } else {
                    "post-edit check warning (before clang): ".to_owned()
                };
                message.append(error.as_str());
                warn(&mut baseline.warnings, message);
            },
            None => {},
        }
        let mut assessment = self.semantic_contract.evaluate_context(&snapshot);
        let ghost was = baseline.warnings@;
        let ghost more = assessment.warnings@;
        baseline.warnings.append(&mut assessment.warnings);
        assert(text::views(baseline.warnings@) =~= text::views(was) + text::views(more));
        let readiness = self.semantic_contract.evaluate_readiness_with_snapshot(
            SemanticReadinessInput {
                tree_unavailable: baseline.before_tree_unavailable,
                clang_unavailable: baseline.before_clang_unavailable,
            },
            Some(&snapshot),
        );
        baseline.before_semantic_snapshot = Some(snapshot);
        baseline.before_semantic_ready = readiness.ready;
        if !readiness.ready {
            baseline.semantic_readiness_note = Some(readiness.summary());
        }
        baseline
    }
}

} // verus!
