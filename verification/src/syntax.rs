//! Syntax trees, and the lines that their nodes cover.
use std::collections::BTreeSet;
use vstd::prelude::*;

verus! {

broadcast use {
    vstd::std_specs::btree::group_btree_axioms,
    vstd::laws_cmp::group_laws_cmp,
};

/// A syntax tree, as `tree_sitter` holds it.
#[verifier::external_type_specification]
#[verifier::external_body]
pub struct ExTree(tree_sitter::Tree);

/// The nodes of a tree, each before those within it: the name of its kind, its
/// first and its last row, counted from zero, whether it stands for an error,
/// and whether it was put in for a missing one.
pub uninterp spec fn tree_nodes(tree: tree_sitter::Tree) -> Seq<
    (Seq<char>, usize, usize, bool, bool),
>;

/// The query for comments.
pub const COMMENT_QUERY: &'static str = "(comment) @c";

/// The query for nodes that a policy may have to leave alone.
pub const PROTECTED_QUERY: &'static str = "[
    (comment) @comment
    (string_literal) @string
    (raw_string_literal) @string
    (char_literal) @string
    (system_lib_string) @string
    (concatenated_string) @string
    (preproc_if) @preproc
    (preproc_ifdef) @preproc
    (preproc_elif) @preproc
    (preproc_else) @preproc
    (preproc_include) @preproc
    (preproc_def) @preproc
    (preproc_function_def) @preproc
]";

/// What a query captures in a tree, in the order in which the matches are
/// found: the name of each capture, and the first and the last row of its node,
/// counted from zero. There is nothing for a query that does not compile.
pub uninterp spec fn tree_captures(tree: tree_sitter::Tree, query: Seq<char>) -> Option<
    Seq<(Seq<char>, usize, usize)>,
>;

/// Where two trees differ, in their order: the bytes, the rows and the columns
/// of each place's start and end.
pub uninterp spec fn tree_changes(
    before: tree_sitter::Tree,
    after: tree_sitter::Tree,
) -> Seq<(usize, usize, usize, usize, usize, usize)>;

/// A node of a syntax tree.
#[derive(Debug)]
pub struct SyntaxNode {
    pub kind: String,
    /// Counted from zero.
    pub start_row: usize,
    pub end_row: usize,
    pub is_error: bool,
    pub is_missing: bool,
}

impl View for SyntaxNode {
    type V = (Seq<char>, usize, usize, bool, bool);

    open spec fn view(&self) -> (Seq<char>, usize, usize, bool, bool) {
        (self.kind@, self.start_row, self.end_row, self.is_error, self.is_missing)
    }
}

/// A node that a query captured.
#[derive(Debug)]
pub struct QueryCapture {
    pub name: String,
    /// Counted from zero.
    pub start_row: usize,
    pub end_row: usize,
}

impl View for QueryCapture {
    type V = (Seq<char>, usize, usize);

    open spec fn view(&self) -> (Seq<char>, usize, usize) {
        (self.name@, self.start_row, self.end_row)
    }
}

/// The contents of captures.
pub open spec fn capture_views(captures: Seq<QueryCapture>) -> Seq<(Seq<char>, usize, usize)> {
    captures.map_values(|c: QueryCapture| c@)
}

/// The contents of captures, if there are any to tell of.
pub open spec fn told_captures(captures: Option<Vec<QueryCapture>>) -> Option<
    Seq<(Seq<char>, usize, usize)>,
> {
    match captures {
        Some(c) => Some(capture_views(c@)),
        None => None,
    }
}

/// `tree_sitter::QueryCursor::matches`, from the root, of a query on C++: the
/// captures of its matches, one after the other. Neither query looks at the text
/// of a node, so the cursor is given none.
#[verifier::external_body]
fn captures_of(tree: &tree_sitter::Tree, query: &str) -> (r: Option<Vec<QueryCapture>>)
    requires
        query@ == COMMENT_QUERY@ || query@ == PROTECTED_QUERY@,
    ensures
        told_captures(r) == tree_captures(*tree, query@),
{
    let query = tree_sitter::Query::new(&tree_sitter_cpp::LANGUAGE.into(), query).ok()?;
    let mut cursor = tree_sitter::QueryCursor::new();
    let mut matches = cursor.matches(&query, tree.root_node(), "".as_bytes());
    let mut r = Vec::new();
    while let Some(found) = tree_sitter::StreamingIterator::next(&mut matches) {
        for capture in found.captures {
            let name = query.capture_names()[capture.index as usize].to_string();
            let start_row = capture.node.start_position().row;
            let end_row = capture.node.end_position().row;
            r.push(QueryCapture { name, start_row, end_row });
        }
    }
    Some(r)
}

/// What the query for protected nodes captures.
pub fn protected_captures(tree: &tree_sitter::Tree) -> (r: Option<Vec<QueryCapture>>)
    ensures
        told_captures(r) == tree_captures(*tree, PROTECTED_QUERY@),
{
    captures_of(tree, PROTECTED_QUERY)
}

/// `tree_sitter::Node::descendant_count`, of the root: how many nodes a tree
/// holds.
#[verifier::external_body]
fn node_count(tree: &tree_sitter::Tree) -> (r: usize)
    ensures
        r == tree_nodes(*tree).len(),
{
    tree.root_node().descendant_count()
}

/// `tree_sitter::TreeCursor::goto_descendant`: the node with a number, where
/// the root has number zero.
#[verifier::external_body]
fn node_at(tree: &tree_sitter::Tree, i: usize) -> (r: SyntaxNode)
    requires
        i < tree_nodes(*tree).len(),
    ensures
        r@ == tree_nodes(*tree)[i as int],
{
    let mut cursor = tree.walk();
    cursor.goto_descendant(i);
    let node = cursor.node();
    SyntaxNode {
        kind: node.kind().to_string(),
        start_row: node.start_position().row,
        end_row: node.end_position().row,
        is_error: node.is_error(),
        is_missing: node.is_missing(),
    }
}

/// `tree_sitter::Tree::changed_ranges`: where two trees differ.
#[verifier::external_body]
fn ranges_between(before: &tree_sitter::Tree, after: &tree_sitter::Tree) -> (r: Vec<
    (usize, usize, usize, usize, usize, usize),
>)
    ensures
        r@ == tree_changes(*before, *after),
{
    before.changed_ranges(after).map(|x| (
        x.start_byte,
        x.end_byte,
        x.start_point.row,
        x.start_point.column,
        x.end_point.row,
        x.end_point.column,
    )).collect()
}

/// The line of a row, which is counted from zero.
pub open spec fn row_line(row: usize) -> int {
    if row < usize::MAX {
        row + 1
    } else {
        row as int
    }
}

/// Whether rows cover a line. The first row always counts.
pub open spec fn rows_cover(start_row: usize, end_row: usize, line: usize) -> bool {
    row_line(start_row) <= line && (line <= row_line(end_row) || line == row_line(start_row))
}

/// The lines that rows cover.
pub open spec fn row_lines(start_row: usize, end_row: usize) -> Set<usize> {
    Set::new(|line: usize| rows_cover(start_row, end_row, line))
}

/// Adds the lines that rows cover.
pub fn insert_rows(set: &mut BTreeSet<usize>, start_row: usize, end_row: usize)
    ensures
        final(set)@ == old(set)@.union(row_lines(start_row, end_row)),
{
    let start: usize = start_row.saturating_add(1);
    let last: usize = end_row.saturating_add(1);
    let end: usize = if last <= start {
        start
    } else {
        last
    };
    let mut line: usize = start;
    set.insert(line);
    assert(set@ =~= old(set)@.union(Set::new(|x: usize| start <= x <= line)));
    while line < end
        invariant
            start <= line <= end,
            set@ == old(set)@.union(Set::new(|x: usize| start <= x <= line)),
        decreases end - line,
    {
        line += 1;
        set.insert(line);
        assert(set@ =~= old(set)@.union(Set::new(|x: usize| start <= x <= line)));
    }
    assert(set@ =~= old(set)@.union(row_lines(start_row, end_row)));
}

/// The contents of nodes.
pub open spec fn node_views(nodes: Seq<SyntaxNode>) -> Seq<
    (Seq<char>, usize, usize, bool, bool),
> {
    nodes.map_values(|n: SyntaxNode| n@)
}

/// Lists the nodes of a tree.
pub fn nodes_of(tree: &tree_sitter::Tree) -> (r: Vec<SyntaxNode>)
    ensures
        node_views(r@) == tree_nodes(*tree),
{
    let n: usize = node_count(tree);
    let mut r: Vec<SyntaxNode> = Vec::new();
    let mut i: usize = 0;
    while i < n
        invariant
            i <= n,
            n == tree_nodes(*tree).len(),
            r@.len() == i,
            forall|k: int| 0 <= k < i ==> (#[trigger] r@[k])@ == tree_nodes(*tree)[k],
        decreases n - i,
    {
        r.push(node_at(tree, i));
        i += 1;
    }
    assert(node_views(r@) =~= tree_nodes(*tree));
    r
}

/// Whether a node is in error.
pub open spec fn is_broken(node: (Seq<char>, usize, usize, bool, bool)) -> bool {
    node.3 || node.4
}

/// The lines of the nodes that are picked.
pub open spec fn covered_lines(
    nodes: Seq<(Seq<char>, usize, usize, bool, bool)>,
    picked: spec_fn((Seq<char>, usize, usize, bool, bool)) -> bool,
) -> Set<usize>
    decreases nodes.len(),
{
    if nodes.len() == 0 {
        Set::empty()
    } else {
        let rest = covered_lines(nodes.drop_last(), picked);
        let last = nodes.last();
        if picked(last) {
            rest.union(row_lines(last.1, last.2))
        } else {
            rest
        }
    }
}

/// The lines of what was captured.
pub open spec fn captured_lines(captures: Seq<(Seq<char>, usize, usize)>) -> Set<usize>
    decreases captures.len(),
{
    if captures.len() == 0 {
        Set::empty()
    } else {
        captured_lines(captures.drop_last()).union(
            row_lines(captures.last().1, captures.last().2),
        )
    }
}

/// The lines that captured nodes cover.
pub fn lines_captured(captures: &[QueryCapture]) -> (r: BTreeSet<usize>)
    ensures
        r@ == captured_lines(capture_views(captures@)),
{
    let ghost all = capture_views(captures@);
    let mut r = BTreeSet::<usize>::new();
    let mut i: usize = 0;
    assert(r@ =~= Set::empty());
    while i < captures.len()
        invariant
            i <= captures@.len(),
            all == capture_views(captures@),
            r@ == captured_lines(all.take(i as int)),
        decreases captures@.len() - i,
    {
        assert(all.take(i + 1).drop_last() =~= all.take(i as int));
        assert(all.take(i + 1).last() == captures@[i as int]@);
        insert_rows(&mut r, captures[i].start_row, captures[i].end_row);
        i += 1;
    }
    assert(all.take(all.len() as int) =~= all);
    r
}

/// The lines of a file that hold comments: those of the nodes that the query
/// captures. There are none where there is no tree, or the query does not
/// compile.
pub fn comment_lines_from_tree(tree: Option<&tree_sitter::Tree>) -> (r: BTreeSet<usize>)
    ensures
        r@ == match tree {
            Some(t) => match tree_captures(*t, COMMENT_QUERY@) {
                Some(captures) => captured_lines(captures),
                None => Set::empty(),
            },
            None => Set::empty(),
        },
{
    if let Some(t) = tree {
        if let Some(captures) = captures_of(t, COMMENT_QUERY) {
            return lines_captured(captures.as_slice());
        }
    }
    let r = BTreeSet::<usize>::new();
    assert(r@ =~= Set::empty());
    r
}

/// How many nodes there are, how many are in error, and on which lines.
#[derive(Debug)]
pub struct TreeErrorStats {
    pub total_nodes: usize,
    pub error_nodes: usize,
    pub error_lines: BTreeSet<usize>,
}

/// A share in billionths, rounded. Nothing is a share of nothing.
pub open spec fn rounded_share(part: nat, whole: nat) -> int {
    if whole == 0 {
        0
    } else {
        ((part * 1_000_000_000 + whole / 2) / whole) as int
    }
}

impl TreeErrorStats {
    /// How much of the tree is in error, in billionths.
    pub fn error_ratio(&self) -> (r: u32)
        requires
            self.error_nodes <= self.total_nodes,
        ensures
            r == rounded_share(self.error_nodes as nat, self.total_nodes as nat),
            r <= 1_000_000_000,
    {
        if self.total_nodes == 0 {
            return 0;
        }
        let part: u128 = self.error_nodes as u128;
        let whole: u128 = self.total_nodes as u128;
        let r: u128 = (part * 1_000_000_000 + whole / 2) / whole;
        proof {
            let p = part as int;
            let w = whole as int;
            assert((p * 1_000_000_000 + w / 2) / w <= 1_000_000_000) by (nonlinear_arith)
                requires
                    0 <= p <= w,
                    w > 0,
            ;
        }
        r as u32
    }
}

/// How many nodes are in error.
pub open spec fn broken_count(nodes: Seq<(Seq<char>, usize, usize, bool, bool)>) -> nat
    decreases nodes.len(),
{
    if nodes.len() == 0 {
        0
    } else {
        broken_count(nodes.drop_last()) + if is_broken(nodes.last()) {
            1nat
        } else {
            0nat
        }
    }
}

/// The errors among nodes.
pub fn error_stats_of(nodes: &[SyntaxNode]) -> (r: TreeErrorStats)
    ensures
        r.total_nodes == nodes@.len(),
        r.error_nodes <= r.total_nodes,
        r.error_nodes == broken_count(node_views(nodes@)),
        r.error_lines@ == covered_lines(node_views(nodes@), |n| is_broken(n)),
{
    let ghost all = node_views(nodes@);
    let mut error_lines = BTreeSet::<usize>::new();
    let mut error_nodes: usize = 0;
    let mut i: usize = 0;
    assert(error_lines@ =~= Set::empty());
    while i < nodes.len()
        invariant
            i <= nodes@.len(),
            all == node_views(nodes@),
            error_nodes <= i,
            error_nodes == broken_count(all.take(i as int)),
            error_lines@ == covered_lines(all.take(i as int), |n| is_broken(n)),
        decreases nodes@.len() - i,
    {
        assert(all.take(i + 1).drop_last() =~= all.take(i as int));
        assert(all.take(i + 1).last() == nodes@[i as int]@);
        if nodes[i].is_error || nodes[i].is_missing {
            error_nodes += 1;
            insert_rows(&mut error_lines, nodes[i].start_row, nodes[i].end_row);
        }
        i += 1;
    }
    assert(all.take(all.len() as int) =~= all);
    TreeErrorStats { total_nodes: nodes.len(), error_nodes, error_lines }
}

/// The errors of a tree.
pub fn tree_error_stats(tree: &tree_sitter::Tree) -> (r: TreeErrorStats)
    ensures
        r.total_nodes == tree_nodes(*tree).len(),
        r.error_nodes <= r.total_nodes,
        r.error_nodes == broken_count(tree_nodes(*tree)),
        r.error_lines@ == covered_lines(tree_nodes(*tree), |n| is_broken(n)),
{
    let nodes = nodes_of(tree);
    assert(nodes@.len() == node_views(nodes@).len());
    error_stats_of(nodes.as_slice())
}

/// Where a tree differs from the one before it. There is nothing to tell where
/// one of them is missing, or where they do not differ.
pub fn compute_changed_ranges(
    before: Option<&tree_sitter::Tree>,
    after: Option<&tree_sitter::Tree>,
) -> (r: Option<Vec<(usize, usize, usize, usize, usize, usize)>>)
    ensures
        match (before, after) {
            (Some(b), Some(a)) => if tree_changes(*b, *a).len() == 0 {
                r is None
            } else {
                r matches Some(v) && v@ == tree_changes(*b, *a)
            },
            _ => r is None,
        },
{
    match (before, after) {
        (Some(b), Some(a)) => {
            let changes = ranges_between(b, a);
            if changes.len() == 0 {
                None
            } else {
                Some(changes)
            }
        },
        _ => None,
    }
}

/// A tree has a line in error only where a node is in error.
pub proof fn lemma_sound_tree_has_no_error_lines(
    nodes: Seq<(Seq<char>, usize, usize, bool, bool)>,
)
    requires
        broken_count(nodes) == 0,
    ensures
        covered_lines(nodes, |n| is_broken(n)) == Set::<usize>::empty(),
    decreases nodes.len(),
{
    if nodes.len() > 0 {
        lemma_sound_tree_has_no_error_lines(nodes.drop_last());
    }
}

/// The lines that are picked are those of the rows of the nodes that are.
pub proof fn lemma_covered_lines(
    nodes: Seq<(Seq<char>, usize, usize, bool, bool)>,
    picked: spec_fn((Seq<char>, usize, usize, bool, bool)) -> bool,
    line: usize,
)
    requires
        forall|k: int|
            0 <= k < nodes.len() ==> (#[trigger] nodes[k]).1 <= nodes[k].2 < usize::MAX,
    ensures
        covered_lines(nodes, picked).contains(line) <==> exists|k: int|
            0 <= k < nodes.len() && picked(#[trigger] nodes[k]) && nodes[k].1 + 1 <= line
                <= nodes[k].2 + 1,
    decreases nodes.len(),
{
    if nodes.len() > 0 {
        let head = nodes.drop_last();
        assert forall|k: int| 0 <= k < head.len() implies (#[trigger] head[k]).1 <= head[k].2
            < usize::MAX by {
            assert(head[k] == nodes[k]);
        }
        lemma_covered_lines(head, picked, line);
        let last = nodes[nodes.len() - 1];
        assert(last == nodes.last());
        if exists|k: int|
            0 <= k < head.len() && picked(#[trigger] head[k]) && head[k].1 + 1 <= line <= head[k].2
                + 1 {
            let k = choose|k: int|
                0 <= k < head.len() && picked(#[trigger] head[k]) && head[k].1 + 1 <= line
                    <= head[k].2 + 1;
            assert(nodes[k] == head[k]);
        }
        if exists|k: int|
            0 <= k < nodes.len() && picked(#[trigger] nodes[k]) && nodes[k].1 + 1 <= line
                <= nodes[k].2 + 1 {
            let k = choose|k: int|
                0 <= k < nodes.len() && picked(#[trigger] nodes[k]) && nodes[k].1 + 1 <= line
                    <= nodes[k].2 + 1;
            if k < head.len() {
                assert(head[k] == nodes[k]);
            }
        }
    }
}

/// The lines of comments are those of the rows of what the query captures.
pub proof fn lemma_captured_lines(captures: Seq<(Seq<char>, usize, usize)>, line: usize)
    requires
        forall|k: int|
            0 <= k < captures.len() ==> (#[trigger] captures[k]).1 <= captures[k].2 < usize::MAX,
    ensures
        captured_lines(captures).contains(line) <==> exists|k: int|
            0 <= k < captures.len() && (#[trigger] captures[k]).1 + 1 <= line <= captures[k].2 + 1,
    decreases captures.len(),
{
    if captures.len() > 0 {
        let head = captures.drop_last();
        assert forall|k: int| 0 <= k < head.len() implies (#[trigger] head[k]).1 <= head[k].2
            < usize::MAX by {
            assert(head[k] == captures[k]);
        }
        lemma_captured_lines(head, line);
        let last = captures[captures.len() - 1];
        assert(last == captures.last());
        if exists|k: int| 0 <= k < head.len() && (#[trigger] head[k]).1 + 1 <= line <= head[k].2 + 1 {
            let k = choose|k: int|
                0 <= k < head.len() && (#[trigger] head[k]).1 + 1 <= line <= head[k].2 + 1;
            assert(captures[k] == head[k]);
        }
        if exists|k: int|
            0 <= k < captures.len() && (#[trigger] captures[k]).1 + 1 <= line <= captures[k].2 + 1 {
            let k = choose|k: int|
                0 <= k < captures.len() && (#[trigger] captures[k]).1 + 1 <= line <= captures[k].2
                    + 1;
            if k < head.len() {
                assert(head[k] == captures[k]);
            }
        }
    }
}

/// A node is in error that stands for one, or was put in for a missing one; and
/// each such node is counted.
pub proof fn lemma_errors_are_counted(nodes: Seq<(Seq<char>, usize, usize, bool, bool)>, k: int)
    ensures
        broken_count(nodes) <= nodes.len(),
        0 <= k < nodes.len() && (nodes[k].3 || nodes[k].4) ==> broken_count(nodes) > 0,
        (forall|i: int| 0 <= i < nodes.len() ==> !(#[trigger] nodes[i]).3 && !nodes[i].4)
            ==> broken_count(nodes) == 0,
        (forall|i: int| 0 <= i < nodes.len() ==> (#[trigger] nodes[i]).3 || nodes[i].4)
            ==> broken_count(nodes) == nodes.len(),
    decreases nodes.len(),
{
    if nodes.len() > 0 {
        let head = nodes.drop_last();
        lemma_errors_are_counted(head, k);
        assert(nodes[nodes.len() - 1] == nodes.last());
        assert forall|i: int| 0 <= i < head.len() implies head[i] == #[trigger] nodes[i] by {}
        if forall|i: int| 0 <= i < nodes.len() ==> !(#[trigger] nodes[i]).3 && !nodes[i].4 {
            assert forall|i: int| 0 <= i < head.len() implies !(#[trigger] head[i]).3
                && !head[i].4 by {
                assert(!nodes[i].3 && !nodes[i].4);
            }
        }
        if forall|i: int| 0 <= i < nodes.len() ==> (#[trigger] nodes[i]).3 || nodes[i].4 {
            assert forall|i: int| 0 <= i < head.len() implies (#[trigger] head[i]).3
                || head[i].4 by {
                assert(nodes[i].3 || nodes[i].4);
            }
        }
    }
}

} // verus!
