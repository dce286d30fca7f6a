use policy_engine::conflict_detector::PolicyConflictDetector;
use policy_engine::convergence::{ConvergenceController, ConvergencePolicyProfile, NamedProfile};
use policy_engine::model::{Edit, PolicyResult, Violation};

fn edit(policy: &str, line: usize, before: &str, after: &str) -> Edit {
    Edit {
        policy: policy.to_string(),
        line,
        before: before.to_string(),
        after: after.to_string(),
    }
}

fn result_for(policy: &str, text: &str, before: &str, after: &str, line: usize) -> PolicyResult {
    PolicyResult {
        text: text.to_string(),
        violations: vec![Violation {
            policy: policy.to_string(),
            message: "test".to_string(),
            line,
            column: Some(1),
        }],
        edits: vec![edit(policy, line, before, after)],
        warnings: Vec::new(),
        changed: true,
    }
}

#[test]
fn suppresses_prior_reversal() {
    let mut controller = ConvergenceController::new();
    let before = "int x = 1;\n";
    let align_text = "int x  = 1;\n";
    let clang_text = "int x = 1;\n";

    let align = result_for("naming_conventions", align_text, "int x = 1;", "int x  = 1;", 1);
    let align = controller.reconcile_policy_result("naming_conventions", before, align);
    let clang = result_for("clang_format", clang_text, "int x  = 1;", "int x = 1;", 1);
    let clang = controller.reconcile_policy_result("clang_format", align.text.as_str(), clang);

    let mut edits = Vec::new();
    edits.extend(align.edits);
    edits.extend(clang.edits);

    let mut violations = Vec::new();
    violations.extend(align.violations);
    violations.extend(clang.violations);

    let finalized = controller.finalize(edits, violations, Vec::new());
    assert_eq!(finalized.edits.len(), 1);
    assert_eq!(finalized.edits[0].policy, "clang_format");
    assert_eq!(finalized.violations.len(), 1);
    assert_eq!(finalized.violations[0].policy, "clang_format");
}

#[test]
fn drops_lower_priority() {
    let mut controller = ConvergenceController::new();
    let original = "int x  = 1;\n";
    let clang_text = "int x = 1;\n";
    let align_text = "int x  = 1;\n";

    let clang = result_for("clang_format", clang_text, "int x  = 1;", "int x = 1;", 1);
    let clang = controller.reconcile_policy_result("clang_format", original, clang);
    let align = result_for("naming_conventions", align_text, "int x = 1;", "int x  = 1;", 1);
    let align =
        controller.reconcile_policy_result("naming_conventions", clang.text.as_str(), align);

    assert!(align.edits.is_empty());
    assert_eq!(align.text, clang.text);
}

#[test]
fn equal_priority_wins() {
    let profiles = vec![
        NamedProfile {
            policy: "policy_a".to_string(),
            profile: ConvergencePolicyProfile::new("layout".to_string(), 700, 0, 240),
        },
        NamedProfile {
            policy: "policy_b".to_string(),
            profile: ConvergencePolicyProfile::new("layout".to_string(), 700, 0, 240),
        },
    ];
    let mut controller = ConvergenceController::with_profiles(profiles);

    let base = "int x=1;\n";
    let a = result_for("policy_a", "int x = 1;\n", "int x=1;", "int x = 1;", 1);
    let a = controller.reconcile_policy_result("policy_a", base, a);
    let b = result_for("policy_b", "int x=2;\n", "int x = 1;", "int x=2;", 1);
    let b = controller.reconcile_policy_result("policy_b", a.text.as_str(), b);

    assert!(b.edits.is_empty());
    assert_eq!(b.text, a.text);
}

#[test]
fn unclaimed_accepted_immediately() {
    let mut controller = ConvergenceController::new();
    let base = "int a=1;\nint b=2;\nint c=3;\n";
    let a = result_for(
        "naming_conventions",
        "int a = 1;\nint b=2;\nint c=3;\n",
        "int a=1;",
        "int a = 1;",
        1,
    );
    let a = controller.reconcile_policy_result("naming_conventions", base, a);
    let b = result_for(
        "clang_format",
        "int a = 1;\nint b=2;\nint c = 3;\n",
        "int c=3;",
        "int c = 3;",
        3,
    );
    let b = controller.reconcile_policy_result("clang_format", a.text.as_str(), b);

    assert_eq!(b.edits.len(), 1);
    assert_eq!(b.edits[0].policy, "clang_format");
    assert_eq!(b.edits[0].line, 3);
}

#[test]
fn finalize_filters_suppressed() {
    let mut controller = ConvergenceController::new();
    let before = "int x = 1;\n";
    let align_text = "int x  = 1;\n";
    let clang_text = "int x = 1;\n";

    let align = result_for("naming_conventions", align_text, "int x = 1;", "int x  = 1;", 1);
    let align = controller.reconcile_policy_result("naming_conventions", before, align);
    let clang = result_for("clang_format", clang_text, "int x  = 1;", "int x = 1;", 1);
    let clang = controller.reconcile_policy_result("clang_format", align.text.as_str(), clang);

    let mut edits = align.edits;
    edits.extend(clang.edits);
    let finalized = controller.finalize(edits, vec![], vec![]);

    assert_eq!(finalized.edits.len(), 1);
    assert_eq!(finalized.edits[0].policy, "clang_format");
}

#[test]
fn a_lost_line_goes_back_and_the_others_stay() {
    let mut controller = ConvergenceController::new();
    let first = result_for("clang_format", "a = 1;\nb\n", "a=1;", "a = 1;", 1);
    let first = controller.reconcile_policy_result("clang_format", "a=1;\nb\n", first);
    let mut second = result_for("naming_conventions", "a  = 1;\nc\n", "a = 1;", "a  = 1;", 1);
    second.edits.push(edit("naming_conventions", 2, "b", "c"));
    let second =
        controller.reconcile_policy_result("naming_conventions", first.text.as_str(), second);
    assert_eq!(second.text, "a = 1;\nc\n");
    assert_eq!(second.edits.len(), 1);
    assert_eq!(second.edits[0].line, 2);
    assert!(second.changed);
}

#[test]
fn reports_revert_conflict() {
    let mut detector = PolicyConflictDetector::new(true, 3);
    let first = edit("p1", 10, "A", "B");
    let second = edit("p2", 10, "B", "A");
    assert!(detector.observe("p1", &[first]).is_empty());
    let violations = detector.observe("p2", &[second]);
    assert_eq!(violations.len(), 1);
    assert!(violations[0].message.contains("appears to revert"));
}

#[test]
fn a_detector_that_is_off_says_nothing() {
    let mut detector = PolicyConflictDetector::new(false, 0);
    assert!(detector.observe("p1", &[edit("p1", 1, "A", "B")]).is_empty());
    assert!(detector.observe("p2", &[edit("p2", 1, "B", "A")]).is_empty());
}

#[test]
fn a_line_that_too_many_touch_is_reported() {
    let mut detector = PolicyConflictDetector::new(true, 3);
    assert!(detector.observe("p1", &[edit("p1", 4, "A", "B")]).is_empty());
    assert!(detector.observe("p2", &[edit("p2", 4, "B", "C")]).is_empty());
    let third = detector.observe("p3", &[edit("p3", 4, "C", "D")]);
    assert_eq!(third.len(), 1);
    assert_eq!(third[0].line, 4);
    assert!(detector.observe("p3", &[]).is_empty());
}

#[test]
fn a_policy_loses_no_line_to_itself() {
    let mut controller = ConvergenceController::new();
    let policy = "naming_conventions";
    let first = controller.reconcile_policy_result(
        policy,
        "a\n",
        result_for(policy, "b\n", "a", "b", 1),
    );
    assert_eq!(first.text, "b\n");
    let second = controller.reconcile_policy_result(
        policy,
        "b\n",
        result_for(policy, "c\n", "b", "c", 1),
    );
    assert_eq!(second.text, "c\n");
    assert_eq!(second.edits.len(), 1);
    assert_eq!(second.edits[0].after, "c");
    assert_eq!(second.violations.len(), 1);
    let report = controller.finalize(
        vec![edit(policy, 1, "a", "b"), edit(policy, 1, "b", "c")],
        Vec::new(),
        Vec::new(),
    );
    assert_eq!(report.edits.len(), 2);
    assert!(report.convergence_pairs.is_empty());
}

#[test]
fn another_policy_of_the_same_priority_still_loses() {
    let profile = |policy: &str| NamedProfile {
        policy: policy.to_string(),
        profile: ConvergencePolicyProfile::new("style".to_string(), 50, 0, 100),
    };
    let mut controller =
        ConvergenceController::with_profiles(vec![profile("holder"), profile("rival")]);
    for (before, after) in [("a", "b"), ("b", "c")] {
        let kept = controller.reconcile_policy_result(
            "holder",
            &format!("{before}\n"),
            result_for("holder", &format!("{after}\n"), before, after, 1),
        );
        assert_eq!(kept.edits.len(), 1);
    }
    let lost = controller.reconcile_policy_result(
        "rival",
        "c\n",
        result_for("rival", "d\n", "c", "d", 1),
    );
    assert!(lost.edits.is_empty());
    assert_eq!(lost.text, "c\n");
}
