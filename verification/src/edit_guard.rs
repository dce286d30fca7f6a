//! The guard that holds a policy to the lines its contract lets it touch.
use std::collections::BTreeSet;
use vstd::prelude::*;

use crate::fuzzy_inference;
use crate::fuzzy_inference::{fuzzy_guard_relax, PolicyCertainty};
use crate::lines;
use crate::lines::lines_of;
use crate::model;
use crate::model::{Edit, EditView, Violation, ViolationView};
use crate::syntax;
use crate::syntax::{insert_rows, nodes_of, protected_captures, QueryCapture, SyntaxNode};
use crate::text;
use crate::text::{chars_of, decimal_of, join, starts_with, str_eq, string_of, trim_bounds};

verus! {

broadcast use {
    vstd::std_specs::btree::group_btree_axioms,
    vstd::laws_cmp::group_laws_cmp,
};

/// What a policy may touch.
#[derive(Clone, Copy, Debug, PartialEq, Eq, Structural)]
pub enum TouchContract {
    Any,
    WhitespaceOnly,
    CodeOnly,
    PreprocessorOnly,
}

/// The lines of a file that hold comments, strings and preprocessor
/// directives.
#[derive(Debug)]
pub struct ProtectedLines {
    pub comments: BTreeSet<usize>,
    pub strings: BTreeSet<usize>,
    pub preprocessor: BTreeSet<usize>,
}

/// The contents of `ProtectedLines`.
#[verifier::ext_equal]
pub ghost struct ProtectedView {
    pub comments: Set<usize>,
    pub strings: Set<usize>,
    pub preprocessor: Set<usize>,
}

impl View for ProtectedLines {
    type V = ProtectedView;

    open spec fn view(&self) -> ProtectedView {
        ProtectedView {
            comments: self.comments@,
            strings: self.strings@,
            preprocessor: self.preprocessor@,
        }
    }
}

/// What a node of the syntax tree protects.
#[derive(Clone, Copy, Debug, PartialEq, Eq, Structural)]
pub enum NodeClass {
    Comment,
    Text,
    Preprocessor,
    Other,
}

/// A node of the syntax tree: what it is, and its rows, counted from zero.
#[derive(Clone, Copy, Debug, PartialEq, Eq, Structural)]
pub struct NodeSpan {
    pub class: NodeClass,
    pub start_row: usize,
    pub end_row: usize,
}

/// Whether a kind of node is text.
pub open spec fn is_text_kind(kind: Seq<char>) -> bool {
    kind == "string_literal"@ || kind == "raw_string_literal"@ || kind == "char_literal"@ || kind
        == "system_lib_string"@ || kind == "concatenated_string"@
}

/// What the name of a node's kind says of it.
pub open spec fn class_of(kind: Seq<char>) -> NodeClass {
    if kind == "comment"@ {
        NodeClass::Comment
    } else if is_text_kind(kind) {
        NodeClass::Text
    } else if text::begins_with(kind, "preproc_"@) && kind != "preproc_call"@ {
        NodeClass::Preprocessor
    } else {
        NodeClass::Other
    }
}

/// What a node is, by the name of its kind.
pub open spec fn span_of(node: (Seq<char>, usize, usize, bool, bool)) -> NodeSpan {
    NodeSpan { class: class_of(node.0), start_row: node.1, end_row: node.2 }
}

/// What the nodes of a tree are.
pub open spec fn spans_of(nodes: Seq<(Seq<char>, usize, usize, bool, bool)>) -> Seq<NodeSpan> {
    nodes.map_values(|n: (Seq<char>, usize, usize, bool, bool)| span_of(n))
}

/// What the name under which a node was captured says of it.
pub open spec fn captured_class(name: Seq<char>) -> NodeClass {
    if name == "comment"@ {
        NodeClass::Comment
    } else if name == "string"@ {
        NodeClass::Text
    } else if name == "preproc"@ {
        NodeClass::Preprocessor
    } else {
        NodeClass::Other
    }
}

/// What a captured node is.
pub open spec fn captured_span(capture: (Seq<char>, usize, usize)) -> NodeSpan {
    NodeSpan { class: captured_class(capture.0), start_row: capture.1, end_row: capture.2 }
}

/// What captured nodes are.
pub open spec fn captured_spans(captures: Seq<(Seq<char>, usize, usize)>) -> Seq<NodeSpan> {
    captures.map_values(|c: (Seq<char>, usize, usize)| captured_span(c))
}

/// What the nodes of a tree are: by the query where it is asked for and
/// compiles, and else by the names of their kinds.
pub open spec fn tree_spans(tree: tree_sitter::Tree, by_query: bool) -> Seq<NodeSpan> {
    let captures = syntax::tree_captures(tree, syntax::PROTECTED_QUERY@);
    if by_query && captures is Some {
        captured_spans(captures->Some_0)
    } else {
        spans_of(syntax::tree_nodes(tree))
    }
}

/// Whether a node covers a line.
pub open spec fn span_covers(span: NodeSpan, line: usize) -> bool {
    syntax::rows_cover(span.start_row, span.end_row, line)
}

/// The lines that a node covers.
pub open spec fn span_lines(span: NodeSpan) -> Set<usize> {
    syntax::row_lines(span.start_row, span.end_row)
}

/// The lines that the nodes of a class cover.
pub open spec fn lines_of_class(spans: Seq<NodeSpan>, class: NodeClass) -> Set<usize> {
    Set::new(
        |line: usize|
            exists|k: int|
                0 <= k < spans.len() && (#[trigger] spans[k]).class == class && span_covers(
                    spans[k],
                    line,
                ),
    )
}

/// The lines that nodes protect.
pub open spec fn protected_lines(spans: Seq<NodeSpan>) -> ProtectedView {
    ProtectedView {
        comments: lines_of_class(spans, NodeClass::Comment),
        strings: lines_of_class(spans, NodeClass::Text),
        preprocessor: lines_of_class(spans, NodeClass::Preprocessor),
    }
}

/// The first `limit` lines, and dots for the rest.
pub open spec fn preview(shown: Seq<usize>, limit: int) -> Seq<char> {
    let numbers = |s: Seq<usize>| s.map_values(|line: usize| text::decimal(line as nat));
    if shown.len() <= limit {
        text::joined(numbers(shown), ", "@)
    } else {
        text::joined(numbers(shown.take(limit)).push("..."@), ", "@)
    }
}

/// The lines that edits name.
pub open spec fn named_lines(edits: Seq<EditView>) -> Set<usize> {
    Set::new(
        |line: usize|
            line > 0 && exists|k: int| 0 <= k < edits.len() && (#[trigger] edits[k]).line == line,
    )
}

/// The first edit that changes more than surrounding white space.
pub open spec fn first_content_change(edits: Seq<EditView>) -> Option<int>
    decreases edits.len(),
{
    if edits.len() == 0 {
        None
    } else {
        let before = first_content_change(edits.drop_last());
        if before is Some {
            before
        } else if text::trimmed(edits.last().before) != text::trimmed(edits.last().after) {
            Some(edits.len() - 1)
        } else {
            None
        }
    }
}

pub open spec fn guard_violation(message: Seq<char>, line: usize) -> ViolationView {
    ViolationView { policy: "edit_guard"@, message, line, column: Some(1usize) }
}

pub open spec fn at_least_one(line: usize) -> usize {
    if line == 0 {
        1
    } else {
        line
    }
}

/// The lines that a contract forbids among those that edits name.
pub open spec fn forbidden(
    contract: TouchContract,
    named: Set<usize>,
    comments: Set<usize>,
    strings: Set<usize>,
    preprocessor: Set<usize>,
    relaxed: bool,
) -> Set<usize> {
    match contract {
        TouchContract::CodeOnly => named.filter(
            |line: usize|
                preprocessor.contains(line) || !relaxed && (comments.contains(line)
                    || strings.contains(line)),
        ),
        TouchContract::PreprocessorOnly => named.difference(preprocessor),
        _ => Set::empty(),
    }
}

pub open spec fn contract_words(contract: TouchContract) -> Seq<char> {
    match contract {
        TouchContract::CodeOnly => "code_only contract touched protected lines "@,
        TouchContract::PreprocessorOnly =>
            "preprocessor_only contract touched non-preprocessor lines "@,
        _ => ""@,
    }
}

/// What the guard objects to.
pub open spec fn guard_objections(
    policy: Seq<char>,
    contract: TouchContract,
    edits: Seq<EditView>,
    protected: Option<ProtectedView>,
    relaxed: bool,
) -> Seq<ViolationView> {
    let blocked = "Blocked edits from '"@ + policy + "': "@;
    if edits.len() == 0 || contract == TouchContract::Any {
        Seq::empty()
    } else if contract == TouchContract::WhitespaceOnly {
        match first_content_change(edits) {
            None => Seq::empty(),
            Some(k) => seq![
                guard_violation(
                    blocked
                        + "whitespace_only contract changed non-whitespace content on line "@
                        + text::decimal(edits[k].line as nat),
                    at_least_one(edits[k].line),
                ),
            ],
        }
    } else if named_lines(edits).len() == 0 {
        Seq::empty()
    } else {
        match protected {
            None => seq![
                guard_violation(
                    blocked + "touch contract requires tree-sitter context"@,
                    at_least_one(edits[0].line),
                ),
            ],
            Some(p) => {
                let bad = lines::listing(
                    forbidden(
                        contract,
                        named_lines(edits),
                        p.comments,
                        p.strings,
                        p.preprocessor,
                        relaxed,
                    ),
                );
                if bad.len() == 0 {
                    Seq::empty()
                } else {
                    seq![
                        guard_violation(
                            blocked + contract_words(contract) + preview(bad, 6),
                            bad[0],
                        ),
                    ]
                }
            },
        }
    }
}

/// The guard.
pub struct EditGuard;

impl EditGuard {
    fn names_text(kind: &str) -> (r: bool)
        ensures
            r == is_text_kind(kind@),
    {
        str_eq(kind, "string_literal") || str_eq(kind, "raw_string_literal") || str_eq(
            kind,
            "char_literal",
        ) || str_eq(kind, "system_lib_string") || str_eq(kind, "concatenated_string")
    }

    /// Reads what a node protects off the name of its kind.
    pub fn classify_node_kind(kind: &str) -> (r: NodeClass)
        ensures
            r == class_of(kind@),
    {
        if str_eq(kind, "comment") {
            NodeClass::Comment
        } else if Self::names_text(kind) {
            NodeClass::Text
        } else {
            let chars = chars_of(kind);
            let prefix = chars_of("preproc_");
            if starts_with(chars.as_slice(), prefix.as_slice()) && !str_eq(kind, "preproc_call") {
                NodeClass::Preprocessor
            } else {
                NodeClass::Other
            }
        }
    }

    /// Reads what a node protects off the name under which it was captured.
    pub fn classify_capture(name: &str) -> (r: NodeClass)
        ensures
            r == captured_class(name@),
    {
        if str_eq(name, "comment") {
            NodeClass::Comment
        } else if str_eq(name, "string") {
            NodeClass::Text
        } else if str_eq(name, "preproc") {
            NodeClass::Preprocessor
        } else {
            NodeClass::Other
        }
    }

    /// What captured nodes are.
    pub fn classify_captures(captures: &[QueryCapture]) -> (r: Vec<NodeSpan>)
        ensures
            r@ == captured_spans(syntax::capture_views(captures@)),
    {
        let mut r: Vec<NodeSpan> = Vec::new();
        let mut i: usize = 0;
        while i < captures.len()
            invariant
                i <= captures@.len(),
                r@.len() == i,
                forall|k: int| 0 <= k < i ==> #[trigger] r@[k] == captured_span(captures@[k]@),
            decreases captures@.len() - i,
        {
            let class = Self::classify_capture(captures[i].name.as_str());
            let (start_row, end_row) = (captures[i].start_row, captures[i].end_row);
            r.push(NodeSpan { class, start_row, end_row });
            i += 1;
        }
        assert(r@ =~= captured_spans(syntax::capture_views(captures@)));
        r
    }

    /// What nodes are.
    pub fn classify_nodes(nodes: &[SyntaxNode]) -> (r: Vec<NodeSpan>)
        ensures
            r@ == spans_of(syntax::node_views(nodes@)),
    {
        let mut r: Vec<NodeSpan> = Vec::new();
        let mut i: usize = 0;
        while i < nodes.len()
            invariant
                i <= nodes@.len(),
                r@.len() == i,
                forall|k: int| 0 <= k < i ==> #[trigger] r@[k] == span_of(nodes@[k]@),
            decreases nodes@.len() - i,
        {
            let class = Self::classify_node_kind(nodes[i].kind.as_str());
            r.push(
                NodeSpan { class, start_row: nodes[i].start_row, end_row: nodes[i].end_row },
            );
            i += 1;
        }
        assert(r@ =~= spans_of(syntax::node_views(nodes@)));
        r
    }

    /// The lines that a syntax tree protects.
    pub fn collect_protected_lines(tree: &tree_sitter::Tree, by_query: bool) -> (r: ProtectedLines)
        ensures
            r@ == protected_lines(tree_spans(*tree, by_query)),
    {
        if by_query {
            if let Some(captures) = protected_captures(tree) {
                return Self::lines_protected_by(
                    Self::classify_captures(captures.as_slice()).as_slice(),
                );
            }
        }
        Self::collect_protected_lines_dfs(tree)
    }

    /// The lines that a syntax tree protects, by the kinds of its nodes.
    pub fn collect_protected_lines_dfs(tree: &tree_sitter::Tree) -> (r: ProtectedLines)
        ensures
            r@ == protected_lines(spans_of(syntax::tree_nodes(*tree))),
    {
        let nodes = nodes_of(tree);
        Self::lines_protected_by(Self::classify_nodes(nodes.as_slice()).as_slice())
    }

    /// The lines that nodes protect.
    pub fn lines_protected_by(spans: &[NodeSpan]) -> (r: ProtectedLines)
        ensures
            r@ == protected_lines(spans@),
    {
        let mut comments: BTreeSet<usize> = BTreeSet::new();
        let mut strings: BTreeSet<usize> = BTreeSet::new();
        let mut preprocessor: BTreeSet<usize> = BTreeSet::new();
        let mut i: usize = 0;
        while i < spans.len()
            invariant
                i <= spans@.len(),
                comments@ == lines_of_class(spans@.take(i as int), NodeClass::Comment),
                strings@ == lines_of_class(spans@.take(i as int), NodeClass::Text),
                preprocessor@ == lines_of_class(spans@.take(i as int), NodeClass::Preprocessor),
            decreases spans@.len() - i,
        {
            let span = spans[i];
            match span.class {
                NodeClass::Comment => {
                    insert_rows(&mut comments, span.start_row, span.end_row);
                },
                NodeClass::Text => {
                    insert_rows(&mut strings, span.start_row, span.end_row);
                },
                NodeClass::Preprocessor => {
                    insert_rows(&mut preprocessor, span.start_row, span.end_row);
                },
                NodeClass::Other => {},
            }
            proof {
                lemma_class_step(spans@, i as int, NodeClass::Comment);
                lemma_class_step(spans@, i as int, NodeClass::Text);
                lemma_class_step(spans@, i as int, NodeClass::Preprocessor);
            }
            i += 1;
        }
        assert(spans@.take(spans@.len() as int) =~= spans@);
        ProtectedLines { comments, strings, preprocessor }
    }

    pub fn line_preview(shown: &[usize], limit: usize) -> (r: String)
        ensures
            r@ == preview(shown@, limit as int),
    {
        let count: usize = if shown.len() <= limit {
            shown.len()
        } else {
            limit
        };
        let mut parts: Vec<String> = Vec::new();
        let mut i: usize = 0;
        while i < count
            invariant
                i <= count <= shown@.len(),
                parts@.len() == i,
                forall|k: int|
                    0 <= k < i ==> (#[trigger] parts@[k])@ == text::decimal(shown@[k] as nat),
            decreases count - i,
        {
            parts.push(decimal_of(shown[i]));
            i += 1;
        }
        let ghost sample = shown@.take(count as int);
        proof {
            assert(text::views(parts@) =~= sample.map_values(
                |line: usize| text::decimal(line as nat),
            ));
            if shown@.len() <= limit {
                assert(sample =~= shown@);
            }
        }
        if shown.len() > limit {
            let ghost was = text::views(parts@);
            let dots = "...".to_owned();
            parts.push(dots);
            assert(text::views(parts@) =~= was.push("..."@));
        }
        join(parts.as_slice(), ", ")
    }

    /// Whether two texts differ in more than surrounding white space.
    fn content_differs(before: &str, after: &str) -> (r: bool)
        ensures
            r == (text::trimmed(before@) != text::trimmed(after@)),
    {
        let left = chars_of(before);
        let right = chars_of(after);
        let (a, b) = trim_bounds(left.as_slice());
        let (c, d) = trim_bounds(right.as_slice());
        let x = string_of(left.as_slice(), a, b);
        let y = string_of(right.as_slice(), c, d);
        !str_eq(x.as_str(), y.as_str())
    }

    fn blocked_message(policy_name: &str, words: &str) -> (r: String)
        ensures
            r@ == "Blocked edits from '"@ + policy_name@ + "': "@ + words@,
    {
        let mut r = "Blocked edits from '".to_owned();
        r.append(policy_name);
        r.append("': ");
        r.append(words);
        r
    }

    fn objection(message: String, line: usize) -> (r: Vec<Violation>)
        ensures
            model::violation_views(r@) == seq![guard_violation(message@, line)],
    {
        let violation = Violation {
            policy: "edit_guard".to_owned(),
            message,
            line,
            column: Some(1),
        };
        let ghost view = violation@;
        let mut r: Vec<Violation> = Vec::new();
        r.push(violation);
        assert(model::violation_views(r@) =~= seq![view]);
        r
    }

    pub fn check_whitespace_only(policy_name: &str, edits: &[Edit]) -> (r: Vec<Violation>)
        ensures
            edits@.len() > 0 ==> model::violation_views(r@) == guard_objections(
                policy_name@,
                TouchContract::WhitespaceOnly,
                model::edit_views(edits@),
                None,
                false,
            ),
            edits@.len() == 0 ==> r@.len() == 0,
    {
        let ghost all = model::edit_views(edits@);
        let mut i: usize = 0;
        while i < edits.len()
            invariant
                all == model::edit_views(edits@),
                i <= edits@.len(),
                first_content_change(all.take(i as int)) is None,
            decreases edits@.len() - i,
        {
            let ghost next = all.take(i + 1);
            proof {
                assert(next.drop_last() =~= all.take(i as int));
                assert(next.last() == edits@[i as int]@);
            }
            if Self::content_differs(edits[i].before.as_str(), edits[i].after.as_str()) {
                proof {
                    lemma_first_change_prefix(all, i + 1);
                    assert(all[i as int] == edits@[i as int]@);
                }
                let line = edits[i].line;
                let mut words =
                    "whitespace_only contract changed non-whitespace content on line ".to_owned();
                words.append(decimal_of(line).as_str());
                let message = Self::blocked_message(policy_name, words.as_str());
                proof {
                    let head = "Blocked edits from '"@ + policy_name@ + "': "@;
                    assert(message@ =~= head
                        + "whitespace_only contract changed non-whitespace content on line "@
                        + text::decimal(line as nat));
                }
                let r = Self::objection(
                    message,
                    if line == 0 {
                        1
                    } else {
                        line
                    },
                );
                return r;
            }
            i += 1;
        }
        assert(all.take(all.len() as int) =~= all);
        let r: Vec<Violation> = Vec::new();
        assert(model::violation_views(r@) =~= Seq::empty());
        r
    }

    /// The lines that edits name.
    fn lines_named(edits: &[Edit]) -> (r: BTreeSet<usize>)
        ensures
            r@ == named_lines(model::edit_views(edits@)),
    {
        let ghost all = model::edit_views(edits@);
        let mut r: BTreeSet<usize> = BTreeSet::new();
        let mut i: usize = 0;
        while i < edits.len()
            invariant
                all == model::edit_views(edits@),
                i <= edits@.len(),
                forall|line: usize|
                    r@.contains(line) <==> line > 0 && exists|k: int|
                        0 <= k < i && (#[trigger] all[k]).line == line,
            decreases edits@.len() - i,
        {
            let ghost was = r@;
            assert(all[i as int] == edits@[i as int]@);
            if edits[i].line > 0 {
                r.insert(edits[i].line);
            }
            proof {
                assert forall|line: usize|
                    r@.contains(line) <==> line > 0 && exists|k: int|
                        0 <= k < i + 1 && (#[trigger] all[k]).line == line by {
                    if was.contains(line) {
                        let k = choose|k: int| 0 <= k < i && (#[trigger] all[k]).line == line;
                        assert(0 <= k < i + 1 && all[k].line == line);
                    }
                    if exists|k: int| 0 <= k < i + 1 && (#[trigger] all[k]).line == line {
                        let k = choose|k: int| 0 <= k < i + 1 && (#[trigger] all[k]).line == line;
                        if k < i && line > 0 {
                            assert(was.contains(line));
                        }
                    }
                    if line == edits@[i as int].line {
                        assert(0 <= i < i + 1 && all[i as int].line == line);
                    }
                }
            }
            i += 1;
        }
        assert(r@ =~= named_lines(all));
        r
    }

    /// The lines of a set that a contract forbids, in increasing order.
    fn forbidden_lines(
        contract: &TouchContract,
        named: &BTreeSet<usize>,
        protected: &ProtectedLines,
        relaxed: bool,
    ) -> (r: Vec<usize>)
        requires
            *contract == TouchContract::CodeOnly || *contract == TouchContract::PreprocessorOnly,
        ensures
            r@ == lines::listing(
                forbidden(
                    *contract,
                    named@,
                    protected.comments@,
                    protected.strings@,
                    protected.preprocessor@,
                    relaxed,
                ),
            ),
    {
        let list = lines_of(named);
        let ghost bad = forbidden(
            *contract,
            named@,
            protected.comments@,
            protected.strings@,
            protected.preprocessor@,
            relaxed,
        );
        let mut set: BTreeSet<usize> = BTreeSet::new();
        let mut i: usize = 0;
        assert(set@ =~= bad.intersect(list@.take(0).to_set()));
        while i < list.len()
            invariant
                *contract == TouchContract::CodeOnly || *contract
                    == TouchContract::PreprocessorOnly,
                i <= list@.len(),
                list@.to_set() == named@,
                bad == forbidden(
                    *contract,
                    named@,
                    protected.comments@,
                    protected.strings@,
                    protected.preprocessor@,
                    relaxed,
                ),
                set@ == bad.intersect(list@.take(i as int).to_set()),
            decreases list@.len() - i,
        {
            let line = list[i];
            assert(list@.to_set().contains(list@[i as int]));
            let hit = match contract {
                TouchContract::CodeOnly => protected.preprocessor.contains(&line) || (!relaxed && (
                protected.comments.contains(&line) || protected.strings.contains(&line))),
                _ => !protected.preprocessor.contains(&line),
            };
            assert(hit == bad.contains(line));
            if hit {
                set.insert(line);
            }
            proof {
                lines::lemma_take_insert(list@, i as int);
                assert(set@ =~= bad.intersect(list@.take(i + 1).to_set()));
            }
            i += 1;
        }
        proof {
            assert(list@.take(list@.len() as int) =~= list@);
            assert(set@ =~= bad);
        }
        lines_of(&set)
    }

    /// Objects to edits that a contract forbids. Without a tree, edits that
    /// have to be held to it are all refused. A file that is known well enough
    /// lets code that is safe for its structure touch comments and strings.
    pub fn validate(
        policy_name: &str,
        contract: &TouchContract,
        edits: &[Edit],
        tree: Option<&tree_sitter::Tree>,
        by_query: bool,
        certainty: Option<&PolicyCertainty>,
        structural_safe: bool,
    ) -> (r: Vec<Violation>)
        ensures
            model::violation_views(r@) == guard_objections(
                policy_name@,
                *contract,
                model::edit_views(edits@),
                match tree {
                    Some(t) => Some(protected_lines(tree_spans(*t, by_query))),
                    None => None,
                },
                structural_safe && certainty is Some && fuzzy_inference::relaxes_guard(
                    *certainty->Some_0,
                ),
            ),
    {
        let relaxed = structural_safe && fuzzy_guard_relax(certainty);
        let by_lines = *contract == TouchContract::CodeOnly || *contract
            == TouchContract::PreprocessorOnly;
        match tree {
            Some(t) if by_lines && edits.len() > 0 => {
                let protected = Self::collect_protected_lines(t, by_query);
                Self::validate_lines(policy_name, contract, edits, Some(&protected), relaxed)
            },
            _ => Self::validate_lines(policy_name, contract, edits, None, relaxed),
        }
    }

    /// Objects to edits that a contract forbids, given the lines that are
    /// protected. With `relaxed`, code may touch comments and strings.
    pub fn validate_lines(
        policy_name: &str,
        contract: &TouchContract,
        edits: &[Edit],
        protected: Option<&ProtectedLines>,
        relaxed: bool,
    ) -> (r: Vec<Violation>)
        ensures
            model::violation_views(r@) == guard_objections(
                policy_name@,
                *contract,
                model::edit_views(edits@),
                match protected {
                    Some(p) => Some(p@),
                    None => None,
                },
                relaxed,
            ),
    {
        let none: Vec<Violation> = Vec::new();
        assert(model::violation_views(none@) =~= Seq::empty());
        assert(model::edit_views(edits@).len() == edits@.len());
        if edits.len() == 0 || *contract == TouchContract::Any {
            return none;
        }
        if *contract == TouchContract::WhitespaceOnly {
            return Self::check_whitespace_only(policy_name, edits);
        }
        let named = Self::lines_named(edits);
        if named.len() == 0 {
            return none;
        }
        match protected {
            None => {
                assert(model::edit_views(edits@)[0] == edits@[0]@);
                let message = Self::blocked_message(
                    policy_name,
                    "touch contract requires tree-sitter context",
                );
                Self::objection(
                    message,
                    if edits[0].line == 0 {
                        1
                    } else {
                        edits[0].line
                    },
                )
            },
            Some(p) => {
                let bad = Self::forbidden_lines(contract, &named, p, relaxed);
                if bad.len() == 0 {
                    return none;
                }
                let mut words = match contract {
                    TouchContract::CodeOnly =>
                        "code_only contract touched protected lines ".to_owned(),
                    _ =>
                        "preprocessor_only contract touched non-preprocessor lines ".to_owned(),
                };
                words.append(Self::line_preview(bad.as_slice(), 6).as_str());
                let message = Self::blocked_message(policy_name, words.as_str());
                proof {
                    let head = "Blocked edits from '"@ + policy_name@ + "': "@;
                    assert(message@ =~= head + contract_words(*contract) + preview(bad@, 6));
                }
                Self::objection(message, bad[0])
            },
        }
    }
}

proof fn lemma_class_step(spans: Seq<NodeSpan>, i: int, class: NodeClass)
    requires
        0 <= i < spans.len(),
    ensures
        lines_of_class(spans.take(i + 1), class) == if spans[i].class == class {
            lines_of_class(spans.take(i), class).union(span_lines(spans[i]))
        } else {
            lines_of_class(spans.take(i), class)
        },
{
    let head = spans.take(i);
    let next = spans.take(i + 1);
    let more = if spans[i].class == class {
        lines_of_class(head, class).union(span_lines(spans[i]))
    } else {
        lines_of_class(head, class)
    };
    assert forall|line: usize| lines_of_class(next, class).contains(line) <==> more.contains(
        line,
    ) by {
        if lines_of_class(next, class).contains(line) {
            let k = choose|k: int|
                0 <= k < next.len() && (#[trigger] next[k]).class == class && span_covers(
                    next[k],
                    line,
                );
            if k < i {
                assert(head[k] == next[k]);
            }
        }
        if lines_of_class(head, class).contains(line) {
            let k = choose|k: int|
                0 <= k < head.len() && (#[trigger] head[k]).class == class && span_covers(
                    head[k],
                    line,
                );
            assert(next[k] == head[k]);
        }
        if spans[i].class == class && span_covers(spans[i], line) {
            assert(next[i] == spans[i]);
        }
    }
    assert(lines_of_class(next, class) =~= more);
}

proof fn lemma_first_change_prefix(edits: Seq<EditView>, n: int)
    requires
        0 <= n <= edits.len(),
        first_content_change(edits.take(n)) is Some,
    ensures
        first_content_change(edits) == first_content_change(edits.take(n)),
    decreases edits.len() - n,
{
    if n == edits.len() {
        assert(edits.take(n) =~= edits);
    } else {
        assert(edits.take(n + 1).drop_last() =~= edits.take(n));
        lemma_first_change_prefix(edits, n + 1);
    }
}

/// Edits of lines that nothing protects are code.
pub proof fn lemma_plain_lines_are_code(
    policy: Seq<char>,
    edits: Seq<EditView>,
    protected: ProtectedView,
    relaxed: bool,
)
    requires
        named_lines(edits).disjoint(protected.comments),
        named_lines(edits).disjoint(protected.strings),
        named_lines(edits).disjoint(protected.preprocessor),
    ensures
        guard_objections(policy, TouchContract::CodeOnly, edits, Some(protected), relaxed).len()
            == 0,
{
    let bad = forbidden(
        TouchContract::CodeOnly,
        named_lines(edits),
        protected.comments,
        protected.strings,
        protected.preprocessor,
        relaxed,
    );
    assert(bad =~= Set::empty());
    let none = Seq::<usize>::empty();
    assert(none.to_set() =~= bad);
    lines::lemma_listing_unique(none, bad);
}

/// Edits that move no more than the space around a line are white space.
pub proof fn lemma_space_is_white_space(
    policy: Seq<char>,
    edits: Seq<EditView>,
    protected: Option<ProtectedView>,
    relaxed: bool,
)
    requires
        forall|k: int|
            0 <= k < edits.len() ==> text::trimmed((#[trigger] edits[k]).before) == text::trimmed(
                edits[k].after,
            ),
    ensures
        guard_objections(policy, TouchContract::WhitespaceOnly, edits, protected, relaxed).len()
            == 0,
    decreases edits.len(),
{
    if edits.len() > 0 {
        let head = edits.drop_last();
        assert forall|k: int| 0 <= k < head.len() implies text::trimmed(
            (#[trigger] head[k]).before,
        ) == text::trimmed(head[k].after) by {
            assert(head[k] == edits[k]);
        }
        lemma_space_is_white_space(policy, head, protected, relaxed);
        assert(edits.last() == edits[edits.len() - 1]);
        assert(first_content_change(head) is None);
    }
}

proof fn lemma_named_lines_finite(edits: Seq<EditView>)
    ensures
        named_lines(edits).finite(),
{
    let all = edits.map_values(|e: EditView| e.line);
    vstd::seq_lib::seq_to_set_is_finite(all);
    assert forall|line: usize| named_lines(edits).contains(line) implies all.to_set().contains(
        line,
    ) by {
        let k = choose|k: int| 0 <= k < edits.len() && (#[trigger] edits[k]).line == line;
        assert(all[k] == line);
    }
    assert(named_lines(edits).subset_of(all.to_set()));
    vstd::set_lib::lemma_len_subset(named_lines(edits), all.to_set());
}

proof fn lemma_first_change(edits: Seq<EditView>)
    ensures
        match first_content_change(edits) {
            Some(k) => 0 <= k < edits.len() && text::trimmed(edits[k].before) != text::trimmed(
                edits[k].after,
            ) && forall|j: int|
                0 <= j < k ==> text::trimmed((#[trigger] edits[j]).before) == text::trimmed(
                    edits[j].after,
                ),
            None => forall|j: int|
                0 <= j < edits.len() ==> text::trimmed((#[trigger] edits[j]).before)
                    == text::trimmed(edits[j].after),
        },
    decreases edits.len(),
{
    if edits.len() > 0 {
        let head = edits.drop_last();
        lemma_first_change(head);
        assert forall|j: int| 0 <= j < head.len() implies head[j] == #[trigger] edits[j] by {}
        assert(edits.last() == edits[edits.len() - 1]);
        if first_content_change(head) is None {
            assert forall|j: int| 0 <= j < edits.len() - 1 implies text::trimmed(
                (#[trigger] edits[j]).before,
            ) == text::trimmed(edits[j].after) by {
                assert(head[j] == edits[j]);
            }
        } else {
            let k = first_content_change(head)->0;
            assert forall|j: int| 0 <= j < k implies text::trimmed((#[trigger] edits[j]).before)
                == text::trimmed(edits[j].after) by {
                assert(head[j] == edits[j]);
            }
        }
    }
}

/// Code alone may be touched: an edit of a line with a directive draws an
/// objection, and so does one of a line with a comment or a string, unless
/// these are let pass. Nothing else does. The objection names the first such
/// line.
pub proof fn lemma_code_only_protects_the_rest(
    policy: Seq<char>,
    edits: Seq<EditView>,
    protected: ProtectedView,
    relaxed: bool,
)
    ensures
        ({
            let r = guard_objections(
                policy,
                TouchContract::CodeOnly,
                edits,
                Some(protected),
                relaxed,
            );
            let is_protected = |line: usize|
                protected.preprocessor.contains(line) || (!relaxed && protected.comments.contains(
                    line,
                )) || (!relaxed && protected.strings.contains(line));
            &&& r.len() <= 1
            &&& r.len() == 0 <==> forall|k: int|
                0 <= k < edits.len() && (#[trigger] edits[k]).line > 0 ==> !is_protected(
                    edits[k].line,
                )
            &&& r.len() == 1 ==> {
                &&& is_protected(r[0].line)
                &&& exists|k: int| 0 <= k < edits.len() && (#[trigger] edits[k]).line == r[0].line
                &&& forall|k: int|
                    0 <= k < edits.len() && (#[trigger] edits[k]).line > 0 && is_protected(
                        edits[k].line,
                    ) ==> r[0].line <= edits[k].line
            }
        }),
{
    let contract = TouchContract::CodeOnly;
    let named = named_lines(edits);
    let bad = forbidden(
        contract,
        named,
        protected.comments,
        protected.strings,
        protected.preprocessor,
        relaxed,
    );
    lemma_objections_are_first(policy, contract, edits, protected, relaxed);
    let is_protected = |line: usize|
        protected.preprocessor.contains(line) || (!relaxed && protected.comments.contains(line))
            || (!relaxed && protected.strings.contains(line));
    assert forall|line: usize| bad.contains(line) <==> line > 0 && is_protected(line) && exists|
        k: int,
    |
        0 <= k < edits.len() && (#[trigger] edits[k]).line == line by {}
    assert forall|k: int| 0 <= k < edits.len() && (#[trigger] edits[k]).line > 0 && is_protected(
        edits[k].line,
    ) implies bad.contains(edits[k].line) by {
        assert(named.contains(edits[k].line));
    }
}

proof fn lemma_objections_are_first(
    policy: Seq<char>,
    contract: TouchContract,
    edits: Seq<EditView>,
    protected: ProtectedView,
    relaxed: bool,
)
    requires
        contract == TouchContract::CodeOnly || contract == TouchContract::PreprocessorOnly,
    ensures
        ({
            let r = guard_objections(policy, contract, edits, Some(protected), relaxed);
            let bad = forbidden(
                contract,
                named_lines(edits),
                protected.comments,
                protected.strings,
                protected.preprocessor,
                relaxed,
            );
            &&& r.len() <= 1
            &&& r.len() == 0 <==> bad =~= Set::empty()
            &&& r.len() == 1 ==> bad.contains(r[0].line) && forall|line: usize| #[trigger]
                bad.contains(line) ==> r[0].line <= line
        }),
{
    let named = named_lines(edits);
    let bad = forbidden(
        contract,
        named,
        protected.comments,
        protected.strings,
        protected.preprocessor,
        relaxed,
    );
    lemma_named_lines_finite(edits);
    assert(bad.subset_of(named));
    vstd::set_lib::lemma_len_subset(bad, named);
    lines::lemma_listing_exists(bad);
    let list = lines::listing(bad);
    if edits.len() == 0 {
        assert forall|line: usize| !named.contains(line) by {}
        assert(named =~= Set::empty());
    }
    if named.len() == 0 {
        assert(named =~= Set::empty());
        assert(bad =~= Set::empty());
    }
    if list.len() == 0 {
        assert(list.to_set() =~= Set::empty());
    } else {
        assert(list.to_set().contains(list[0]));
        assert forall|line: usize| #[trigger] bad.contains(line) implies list[0] <= line by {
            assert(list.to_set().contains(line));
            let k = choose|k: int| 0 <= k < list.len() && list[k] == line;
            if k > 0 {
                assert(list[0] < list[k]);
            }
        }
    }
}

/// Directives alone may be touched: an edit of any other line draws an
/// objection, which names the first such line.
pub proof fn lemma_preprocessor_only_protects_the_rest(
    policy: Seq<char>,
    edits: Seq<EditView>,
    protected: ProtectedView,
    relaxed: bool,
)
    ensures
        ({
            let r = guard_objections(
                policy,
                TouchContract::PreprocessorOnly,
                edits,
                Some(protected),
                relaxed,
            );
            &&& r.len() <= 1
            &&& r.len() == 0 <==> forall|k: int|
                0 <= k < edits.len() && (#[trigger] edits[k]).line > 0
                    ==> protected.preprocessor.contains(edits[k].line)
            &&& r.len() == 1 ==> {
                &&& r[0].line > 0 && !protected.preprocessor.contains(r[0].line)
                &&& exists|k: int| 0 <= k < edits.len() && (#[trigger] edits[k]).line == r[0].line
                &&& forall|k: int|
                    0 <= k < edits.len() && (#[trigger] edits[k]).line > 0
                        && !protected.preprocessor.contains(edits[k].line) ==> r[0].line
                        <= edits[k].line
            }
        }),
{
    let contract = TouchContract::PreprocessorOnly;
    let named = named_lines(edits);
    let bad = forbidden(
        contract,
        named,
        protected.comments,
        protected.strings,
        protected.preprocessor,
        relaxed,
    );
    lemma_objections_are_first(policy, contract, edits, protected, relaxed);
    assert forall|line: usize| bad.contains(line) <==> line > 0
        && !protected.preprocessor.contains(line) && exists|k: int|
        0 <= k < edits.len() && (#[trigger] edits[k]).line == line by {}
    assert forall|k: int|
        0 <= k < edits.len() && (#[trigger] edits[k]).line > 0 && !protected.preprocessor.contains(
            edits[k].line,
        ) implies bad.contains(edits[k].line) by {
        assert(named.contains(edits[k].line));
    }
}

/// White space alone may be touched: an edit that changes anything within the
/// outer space draws an objection, whatever line it names and whether there is
/// a tree or not. The objection is to the first such edit.
pub proof fn lemma_whitespace_only_protects_content(
    policy: Seq<char>,
    edits: Seq<EditView>,
    protected: Option<ProtectedView>,
    relaxed: bool,
)
    ensures
        ({
            let r = guard_objections(
                policy,
                TouchContract::WhitespaceOnly,
                edits,
                protected,
                relaxed,
            );
            &&& r.len() <= 1
            &&& r.len() == 0 <==> forall|k: int|
                0 <= k < edits.len() ==> text::trimmed((#[trigger] edits[k]).before)
                    == text::trimmed(edits[k].after)
            &&& forall|k: int|
                0 <= k < edits.len() && text::trimmed((#[trigger] edits[k]).before)
                    != text::trimmed(edits[k].after) && edits[k].line > 0 && (forall|j: int|
                    0 <= j < k ==> text::trimmed((#[trigger] edits[j]).before) == text::trimmed(
                        edits[j].after,
                    )) ==> r[0].line == edits[k].line
        }),
{
    lemma_first_change(edits);
    if first_content_change(edits) is Some {
        let f = first_content_change(edits)->0;
        assert(text::trimmed(edits[f].before) != text::trimmed(edits[f].after));
        assert forall|k: int|
            0 <= k < edits.len() && text::trimmed((#[trigger] edits[k]).before) != text::trimmed(
                edits[k].after,
            ) && (forall|j: int|
                0 <= j < k ==> text::trimmed((#[trigger] edits[j]).before) == text::trimmed(
                    edits[j].after,
                )) implies k == f by {
            if f < k {
                assert(text::trimmed(edits[f].before) == text::trimmed(edits[f].after));
            }
            if k < f {
                assert(text::trimmed(edits[k].before) == text::trimmed(edits[k].after));
            }
        }
    }
}

/// Without a tree, edits that name a line are refused where lines count, and
/// a policy that may touch anything is never objected to.
pub proof fn lemma_no_tree_no_leave(
    policy: Seq<char>,
    edits: Seq<EditView>,
    relaxed: bool,
    protected: Option<ProtectedView>,
)
    ensures
        guard_objections(policy, TouchContract::Any, edits, protected, relaxed).len() == 0,
        (exists|k: int| 0 <= k < edits.len() && (#[trigger] edits[k]).line > 0) ==> {
            &&& guard_objections(policy, TouchContract::CodeOnly, edits, None, relaxed).len() == 1
            &&& guard_objections(
                policy,
                TouchContract::PreprocessorOnly,
                edits,
                None,
                relaxed,
            ).len() == 1
        },
        (forall|k: int| 0 <= k < edits.len() ==> (#[trigger] edits[k]).line == 0) ==> {
            &&& guard_objections(policy, TouchContract::CodeOnly, edits, None, relaxed).len() == 0
            &&& guard_objections(
                policy,
                TouchContract::PreprocessorOnly,
                edits,
                None,
                relaxed,
            ).len() == 0
        },
{
    lemma_named_lines_finite(edits);
    let named = named_lines(edits);
    if exists|k: int| 0 <= k < edits.len() && (#[trigger] edits[k]).line > 0 {
        let k = choose|k: int| 0 <= k < edits.len() && (#[trigger] edits[k]).line > 0;
        assert(named.contains(edits[k].line));
        assert(named.len() > 0);
    } else {
        assert forall|k: int| 0 <= k < edits.len() implies (#[trigger] edits[k]).line == 0 by {}
        assert(named =~= Set::empty());
    }
}

/// A node of the tree protects the lines from its first row to its last, and
/// no line is protected but by a node: comments, the kinds of strings, and
/// directives other than those that are mere calls.
pub proof fn lemma_nodes_protect_their_lines(
    nodes: Seq<(Seq<char>, usize, usize, bool, bool)>,
    line: usize,
)
    requires
        forall|k: int|
            0 <= k < nodes.len() ==> (#[trigger] nodes[k]).1 <= nodes[k].2 < usize::MAX,
    ensures
        ({
            let p = protected_lines(spans_of(nodes));
            let here = |k: int|
                0 <= k < nodes.len() && nodes[k].1 + 1 <= line && line <= nodes[k].2 + 1;
            &&& p.comments.contains(line) <==> exists|k: int|
                here(k) && (#[trigger] nodes[k]).0 == "comment"@
            &&& p.strings.contains(line) <==> exists|k: int|
                here(k) && ((#[trigger] nodes[k]).0 == "string_literal"@ || nodes[k].0
                    == "raw_string_literal"@ || nodes[k].0 == "char_literal"@ || nodes[k].0
                    == "system_lib_string"@ || nodes[k].0 == "concatenated_string"@)
            &&& p.preprocessor.contains(line) <==> exists|k: int|
                here(k) && (#[trigger] nodes[k]).0.len() >= 8 && nodes[k].0.take(8) == "preproc_"@
                    && nodes[k].0 != "preproc_call"@
        }),
{
    reveal_strlit("comment");
    reveal_strlit("string_literal");
    reveal_strlit("raw_string_literal");
    reveal_strlit("char_literal");
    reveal_strlit("system_lib_string");
    reveal_strlit("concatenated_string");
    reveal_strlit("preproc_");
    let spans = spans_of(nodes);
    assert forall|k: int| 0 <= k < nodes.len() implies span_covers(#[trigger] spans[k], line) == (
    nodes[k].1 + 1 <= line && line <= nodes[k].2 + 1) by {
        assert(nodes[k].1 <= nodes[k].2);
    }
    assert("comment"@[0] == 'c' && "string_literal"@[0] == 's' && "raw_string_literal"@[0] == 'r');
    assert("char_literal"@[0] == 'c' && "system_lib_string"@[0] == 's');
    assert("concatenated_string"@[0] == 'c' && "preproc_"@[0] == 'p');
    assert("comment"@[1] == 'o' && "char_literal"@[1] == 'h' && "concatenated_string"@[2] == 'n');
    assert("comment"@[2] == 'm');
    let here = |k: int| 0 <= k < nodes.len() && nodes[k].1 + 1 <= line && line <= nodes[k].2 + 1;
    if exists|k: int| here(k) && (#[trigger] nodes[k]).0 == "comment"@ {
        let k = choose|k: int| here(k) && (#[trigger] nodes[k]).0 == "comment"@;
        assert(spans[k].class == NodeClass::Comment);
    }
    if exists|k: int|
        here(k) && ((#[trigger] nodes[k]).0 == "string_literal"@ || nodes[k].0
            == "raw_string_literal"@ || nodes[k].0 == "char_literal"@ || nodes[k].0
            == "system_lib_string"@ || nodes[k].0 == "concatenated_string"@) {
        let k = choose|k: int|
            here(k) && ((#[trigger] nodes[k]).0 == "string_literal"@ || nodes[k].0
                == "raw_string_literal"@ || nodes[k].0 == "char_literal"@ || nodes[k].0
                == "system_lib_string"@ || nodes[k].0 == "concatenated_string"@);
        assert(nodes[k].0 != "comment"@);
        assert(spans[k].class == NodeClass::Text);
    }
    if exists|k: int|
        here(k) && (#[trigger] nodes[k]).0.len() >= 8 && nodes[k].0.take(8) == "preproc_"@
            && nodes[k].0 != "preproc_call"@ {
        let k = choose|k: int|
            here(k) && (#[trigger] nodes[k]).0.len() >= 8 && nodes[k].0.take(8) == "preproc_"@
                && nodes[k].0 != "preproc_call"@;
        assert(nodes[k].0.take(8)[0] == nodes[k].0[0]);
        assert(nodes[k].0[0] == 'p');
        assert(spans[k].class == NodeClass::Preprocessor);
    }
    assert forall|class: NodeClass|
        lines_of_class(spans, class).contains(line) implies exists|k: int|
        here(k) && class_of((#[trigger] nodes[k]).0) == class by {
        let k = choose|k: int|
            0 <= k < spans.len() && (#[trigger] spans[k]).class == class && span_covers(
                spans[k],
                line,
            );
        assert(class_of(nodes[k].0) == class);
    }
    if protected_lines(spans).preprocessor.contains(line) {
        let k = choose|k: int|
            here(k) && class_of((#[trigger] nodes[k]).0) == NodeClass::Preprocessor;
        assert(nodes[k].0.take(8) =~= "preproc_"@);
    }
    if protected_lines(spans).comments.contains(line) {
        let k = choose|k: int| here(k) && class_of((#[trigger] nodes[k]).0) == NodeClass::Comment;
        assert(nodes[k].0 == "comment"@);
    }
    if protected_lines(spans).strings.contains(line) {
        let k = choose|k: int| here(k) && class_of((#[trigger] nodes[k]).0) == NodeClass::Text;
        assert(is_text_kind(nodes[k].0));
    }
}

/// What the query captures protects the lines of its node, as the name of the
/// capture says.
pub proof fn lemma_captures_protect_their_lines(
    captures: Seq<(Seq<char>, usize, usize)>,
    line: usize,
)
    requires
        forall|k: int|
            0 <= k < captures.len() ==> (#[trigger] captures[k]).1 <= captures[k].2 < usize::MAX,
    ensures
        ({
            let p = protected_lines(captured_spans(captures));
            let here = |k: int|
                0 <= k < captures.len() && captures[k].1 + 1 <= line && line <= captures[k].2 + 1;
            &&& p.comments.contains(line) <==> exists|k: int|
                here(k) && (#[trigger] captures[k]).0 == "comment"@
            &&& p.strings.contains(line) <==> exists|k: int|
                here(k) && (#[trigger] captures[k]).0 == "string"@
            &&& p.preprocessor.contains(line) <==> exists|k: int|
                here(k) && (#[trigger] captures[k]).0 == "preproc"@
        }),
{
    reveal_strlit("comment");
    reveal_strlit("string");
    reveal_strlit("preproc");
    assert("comment"@[0] == 'c' && "string"@[0] == 's' && "preproc"@[0] == 'p');
    let spans = captured_spans(captures);
    assert forall|k: int| 0 <= k < captures.len() implies span_covers(#[trigger] spans[k], line)
        == (captures[k].1 + 1 <= line && line <= captures[k].2 + 1) && spans[k].class
        == captured_class(captures[k].0) by {
        assert(captures[k].1 <= captures[k].2);
    }
    let here = |k: int|
        0 <= k < captures.len() && captures[k].1 + 1 <= line && line <= captures[k].2 + 1;
    assert forall|k: int| here(k) && (#[trigger] captures[k]).0 == "comment"@ implies lines_of_class(
        spans,
        NodeClass::Comment,
    ).contains(line) by {
        assert(spans[k].class == NodeClass::Comment);
    }
    assert forall|k: int| here(k) && (#[trigger] captures[k]).0 == "string"@ implies lines_of_class(
        spans,
        NodeClass::Text,
    ).contains(line) by {
        assert(spans[k].class == NodeClass::Text);
    }
    assert forall|k: int| here(k) && (#[trigger] captures[k]).0 == "preproc"@ implies lines_of_class(
        spans,
        NodeClass::Preprocessor,
    ).contains(line) by {
        assert(spans[k].class == NodeClass::Preprocessor);
    }
    assert forall|class: NodeClass|
        lines_of_class(spans, class).contains(line) implies exists|k: int|
        here(k) && captured_class((#[trigger] captures[k]).0) == class by {
        let k = choose|k: int|
            0 <= k < spans.len() && (#[trigger] spans[k]).class == class && span_covers(
                spans[k],
                line,
            );
        assert(captured_class(captures[k].0) == class);
    }
    assert(lines_of_class(spans, NodeClass::Comment).contains(line) ==> exists|k: int|
        here(k) && (#[trigger] captures[k]).0 == "comment"@);
    assert(lines_of_class(spans, NodeClass::Text).contains(line) ==> exists|k: int|
        here(k) && (#[trigger] captures[k]).0 == "string"@);
    assert(lines_of_class(spans, NodeClass::Preprocessor).contains(line) ==> exists|k: int|
        here(k) && (#[trigger] captures[k]).0 == "preproc"@);
}

} // verus!
