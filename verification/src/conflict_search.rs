//! Choosing among conflicting nodes: the best independent set of a component,
//! and the greedy choice for components that are too large to search.
use std::collections::BTreeSet;
use vstd::prelude::*;

use crate::conflict_graph;
use crate::lines;
use crate::lines::lines_of;

verus! {

broadcast use {
    vstd::std_specs::btree::group_btree_axioms,
    vstd::laws_cmp::group_laws_cmp,
};

/// No node weighs more than this.
pub const WEIGHT_LIMIT: i128 = 0x8_0000_0000_0000_0000;

/// The weight of the chosen nodes.
pub open spec fn weight(d: Seq<bool>, w: Seq<i128>) -> int
    decreases d.len(),
{
    if d.len() == 0 {
        0
    } else {
        weight(d.drop_last(), w) + if d.last() {
            w[d.len() - 1] as int
        } else {
            0
        }
    }
}

/// The lines of the chosen nodes.
pub open spec fn chosen_lines(d: Seq<bool>, lines: Seq<usize>) -> Set<usize> {
    Set::new(|line: usize| exists|k: int| 0 <= k < d.len() && #[trigger] d[k] && lines[k] == line)
}

/// The order of two lists by their first difference; a list comes before its
/// extensions.
pub open spec fn lex_less(a: Seq<usize>, b: Seq<usize>) -> bool
    decreases a.len(),
{
    if b.len() == 0 {
        false
    } else if a.len() == 0 {
        true
    } else if a[0] != b[0] {
        a[0] < b[0]
    } else {
        lex_less(a.drop_first(), b.drop_first())
    }
}

/// Whether the choice `d` is preferred to `e`: it weighs more, or as much with
/// the list of its lines first.
pub open spec fn better(d: Seq<bool>, e: Seq<bool>, w: Seq<i128>, lines: Seq<usize>) -> bool {
    ||| weight(d, w) > weight(e, w)
    ||| weight(d, w) == weight(e, w) && lex_less(
        lines::listing(chosen_lines(d, lines)),
        lines::listing(chosen_lines(e, lines)),
    )
}

/// Whether no two chosen nodes are neighbors.
pub open spec fn independent(adj: conflict_graph::Graph, d: Seq<bool>) -> bool {
    forall|i: int, j: int|
        0 <= i < d.len() && 0 <= j < d.len() && i != j && #[trigger] d[i] && #[trigger] d[j]
            ==> !conflict_graph::adjacent(adj, i, j)
}

/// Whether only nodes of `part` are chosen.
pub open spec fn within(d: Seq<bool>, part: Seq<usize>) -> bool {
    forall|i: int| 0 <= i < d.len() && #[trigger] d[i] ==> part.contains(i as usize)
}

/// Whether `d` is an independent choice from `part`.
pub open spec fn admissible(adj: conflict_graph::Graph, part: Seq<usize>, d: Seq<bool>) -> bool {
    &&& d.len() == adj.n
    &&& independent(adj, d)
    &&& within(d, part)
}

/// Whether `d` is the independent choice from `part` that is preferred to all
/// others.
pub open spec fn is_best(
    adj: conflict_graph::Graph,
    w: Seq<i128>,
    lines: Seq<usize>,
    part: Seq<usize>,
    d: Seq<bool>,
) -> bool {
    &&& admissible(adj, part, d)
    &&& forall|e: Seq<bool>| #[trigger] admissible(adj, part, e) ==> !better(e, d, w, lines)
}

pub proof fn lemma_lex_transitive(a: Seq<usize>, b: Seq<usize>, c: Seq<usize>)
    requires
        lex_less(a, b),
        lex_less(b, c),
    ensures
        lex_less(a, c),
    decreases a.len(),
{
    if a.len() > 0 && b.len() > 0 && c.len() > 0 && a[0] == b[0] && b[0] == c[0] {
        lemma_lex_transitive(a.drop_first(), b.drop_first(), c.drop_first());
    }
}

/// Preference is transitive.
pub proof fn lemma_better_transitive(
    c: Seq<bool>,
    d: Seq<bool>,
    e: Seq<bool>,
    w: Seq<i128>,
    lines: Seq<usize>,
)
    requires
        better(c, d, w, lines),
        better(d, e, w, lines),
    ensures
        better(c, e, w, lines),
{
    let a = lines::listing(chosen_lines(c, lines));
    let b = lines::listing(chosen_lines(d, lines));
    let z = lines::listing(chosen_lines(e, lines));
    if lex_less(a, b) && lex_less(b, z) {
        lemma_lex_transitive(a, b, z);
    }
}

pub proof fn lemma_weight_update(d: Seq<bool>, w: Seq<i128>, k: int)
    requires
        0 <= k < d.len(),
        !d[k],
    ensures
        weight(d.update(k, true), w) == weight(d, w) + w[k],
    decreases d.len(),
{
    let now = d.update(k, true);
    if k == d.len() - 1 {
        assert(now.drop_last() =~= d.drop_last());
    } else {
        assert(now.drop_last() =~= d.drop_last().update(k, true));
        lemma_weight_update(d.drop_last(), w, k);
    }
}

proof fn lemma_weight_none(d: Seq<bool>, w: Seq<i128>)
    requires
        forall|k: int| 0 <= k < d.len() ==> !#[trigger] d[k],
    ensures
        weight(d, w) == 0,
    decreases d.len(),
{
    if d.len() > 0 {
        assert(!d[d.len() - 1]);
        lemma_weight_none(d.drop_last(), w);
    }
}

/// What the nodes from position `p` on weigh together.
spec fn rest_weight(ordered: Seq<usize>, w: Seq<i128>, p: int) -> int
    decreases ordered.len() - p,
{
    if p >= ordered.len() {
        0
    } else {
        w[ordered[p] as int] + rest_weight(ordered, w, p + 1)
    }
}

/// Whether `e` differs from `current` only at the nodes from position `p` on.
spec fn extends(e: Seq<bool>, current: Seq<bool>, ordered: Seq<usize>, p: int) -> bool {
    &&& e.len() == current.len()
    &&& forall|k: int|
        0 <= k < e.len() ==> #[trigger] e[k] == current[k] || (exists|q: int|
            p <= q < ordered.len() && ordered[q] == k)
}

/// Whether nothing is chosen yet from position `p` on.
spec fn open_from(current: Seq<bool>, ordered: Seq<usize>, p: int) -> bool {
    forall|q: int| p <= q < ordered.len() ==> !current[#[trigger] ordered[q] as int]
}

proof fn lemma_extends_bound(
    e: Seq<bool>,
    current: Seq<bool>,
    ordered: Seq<usize>,
    w: Seq<i128>,
    p: int,
)
    requires
        0 <= p <= ordered.len(),
        ordered.no_duplicates(),
        forall|q: int| 0 <= q < ordered.len() ==> (#[trigger] ordered[q]) < current.len(),
        w.len() == current.len(),
        forall|k: int| 0 <= k < w.len() ==> 0 <= #[trigger] w[k],
        extends(e, current, ordered, p),
        open_from(current, ordered, p),
    ensures
        weight(e, w) <= weight(current, w) + rest_weight(ordered, w, p),
    decreases ordered.len() - p,
{
    if p == ordered.len() {
        assert(e =~= current);
    } else {
        let node = ordered[p] as int;
        let next = if e[node] {
            current.update(node, true)
        } else {
            current
        };
        if e[node] {
            lemma_weight_update(current, w, node);
        }
        assert forall|q: int| p + 1 <= q < ordered.len() implies !next[
            #[trigger] ordered[q] as int
        ] by {
            assert(ordered[q] != ordered[p]);
        }
        lemma_extends_step(e, current, ordered, p);
        lemma_extends_bound(e, next, ordered, w, p + 1);
    }
}

proof fn lemma_extends_step(e: Seq<bool>, current: Seq<bool>, ordered: Seq<usize>, p: int)
    requires
        0 <= p < ordered.len(),
        ordered[p] < current.len(),
        extends(e, current, ordered, p),
        !current[ordered[p] as int],
    ensures
        e[ordered[p] as int] ==> extends(
            e,
            current.update(ordered[p] as int, true),
            ordered,
            p + 1,
        ),
        !e[ordered[p] as int] ==> extends(e, current, ordered, p + 1),
{
    let node = ordered[p] as int;
    let next = if e[node] {
        current.update(node, true)
    } else {
        current
    };
    assert forall|k: int| 0 <= k < e.len() implies #[trigger] e[k] == next[k] || (exists|q: int|
        p + 1 <= q < ordered.len() && ordered[q] == k) by {
        if k != node && e[k] != current[k] {
            let q = choose|q: int| p <= q < ordered.len() && ordered[q] == k;
            assert(q != p);
            assert(p + 1 <= q < ordered.len() && ordered[q] == k);
        }
    }
}

/// The lines of the chosen nodes, in increasing order.
fn chosen_line_list(d: &Vec<bool>, lines: &[usize]) -> (r: Vec<usize>)
    requires
        d@.len() == lines@.len(),
    ensures
        r@ == lines::listing(chosen_lines(d@, lines@)),
{
    let mut set: BTreeSet<usize> = BTreeSet::new();
    let mut i: usize = 0;
    while i < d.len()
        invariant
            i <= d@.len() == lines@.len(),
            set@ == Set::new(
                |line: usize| exists|k: int| 0 <= k < i && #[trigger] d@[k] && lines@[k] == line,
            ),
        decreases d@.len() - i,
    {
        let ghost was = set@;
        if d[i] {
            set.insert(lines[i]);
        }
        proof {
            let now = Set::new(
                |line: usize|
                    exists|k: int| 0 <= k < i + 1 && #[trigger] d@[k] && lines@[k] == line,
            );
            assert forall|line: usize| set@.contains(line) <==> now.contains(line) by {
                if was.contains(line) {
                    let k = choose|k: int| 0 <= k < i && #[trigger] d@[k] && lines@[k] == line;
                    assert(0 <= k < i + 1 && d@[k] && lines@[k] == line);
                }
                if now.contains(line) {
                    let k = choose|k: int| 0 <= k < i + 1 && #[trigger] d@[k] && lines@[k] == line;
                    if k < i {
                        assert(was.contains(line));
                    }
                }
                if d@[i as int] && line == lines@[i as int] {
                    assert(now.contains(line));
                }
            }
            assert(set@ =~= now);
        }
        i += 1;
    }
    assert(set@ =~= chosen_lines(d@, lines@));
    lines_of(&set)
}

/// Compares two lists by their first difference.
fn comes_first(a: &Vec<usize>, b: &Vec<usize>) -> (r: bool)
    ensures
        r == lex_less(a@, b@),
{
    let mut i: usize = 0;
    assert(a@.skip(0) =~= a@);
    assert(b@.skip(0) =~= b@);
    while i < a.len() && i < b.len()
        invariant
            i <= a@.len(),
            i <= b@.len(),
            lex_less(a@, b@) == lex_less(a@.skip(i as int), b@.skip(i as int)),
        decreases a@.len() - i,
    {
        let ghost x = a@.skip(i as int);
        let ghost y = b@.skip(i as int);
        if a[i] != b[i] {
            return a[i] < b[i];
        }
        proof {
            assert(x.drop_first() =~= a@.skip(i + 1));
            assert(y.drop_first() =~= b@.skip(i + 1));
        }
        i += 1;
    }
    i < b.len()
}

/// The best choice found so far, with its weight.
struct BestChoice {
    found: bool,
    score: i128,
    set: Vec<bool>,
}

impl BestChoice {
    spec fn wf(&self, adj: conflict_graph::Graph, w: Seq<i128>, part: Seq<usize>) -> bool {
        self.found ==> admissible(adj, part, self.set@) && self.score == weight(self.set@, w)
    }
}

/// Whether what is found now is at least as good as what was found before.
spec fn no_worse(now: BestChoice, was: BestChoice, w: Seq<i128>, lines: Seq<usize>) -> bool {
    was.found ==> now.found && (now.set@ == was.set@ || better(now.set@, was.set@, w, lines))
}

/// Whether nothing that extends `current` is preferred to what was found.
spec fn settled(
    best: BestChoice,
    adj: conflict_graph::Graph,
    w: Seq<i128>,
    lines: Seq<usize>,
    ordered: Seq<usize>,
    current: Seq<bool>,
    p: int,
) -> bool {
    &&& best.found
    &&& forall|e: Seq<bool>| #[trigger]
        admissible(adj, ordered, e) && extends(e, current, ordered, p) ==> !better(
            e,
            best.set@,
            w,
            lines,
        )
}

/// Whether a chosen node is a neighbor of `node`.
fn has_chosen_neighbor(adjacency: &[Vec<usize>], node: usize, d: &Vec<bool>) -> (r: bool)
    requires
        conflict_graph::is_graph(adjacency@),
        node < adjacency@.len(),
        d@.len() == adjacency@.len(),
    ensures
        r == exists|k: int|
            0 <= k < d@.len() && #[trigger] d@[k] && conflict_graph::adjacent(conflict_graph::graph_of(adjacency@),
                node as int,
                k,
            ),
{
    let neighbors = &adjacency[node];
    let mut i: usize = 0;
    while i < neighbors.len()
        invariant
            conflict_graph::is_graph(adjacency@),
            node < adjacency@.len(),
            d@.len() == adjacency@.len(),
            neighbors@ == adjacency@[node as int]@,
            i <= neighbors@.len(),
            forall|m: int| 0 <= m < i ==> !d@[#[trigger] neighbors@[m] as int],
        decreases neighbors@.len() - i,
    {
        assert(adjacency@[node as int]@[i as int] < adjacency@.len());
        if d[neighbors[i]] {
            assert(conflict_graph::adjacent(conflict_graph::graph_of(adjacency@),
                node as int,
                neighbors@[i as int] as int,
            ));
            return true;
        }
        i += 1;
    }
    proof {
        assert forall|k: int|
            0 <= k < d@.len() && #[trigger] d@[k] implies !conflict_graph::adjacent(conflict_graph::graph_of(adjacency@),
            node as int,
            k,
        ) by {
            if conflict_graph::adjacent(conflict_graph::graph_of(adjacency@), node as int, k) {
                let m = choose|m: int| 0 <= m < neighbors@.len() && neighbors@[m] == k as usize;
                assert(!d@[neighbors@[m] as int]);
            }
        }
    }
    false
}

/// What the search works on.
struct SearchSpace<'a> {
    adjacency: &'a [Vec<usize>],
    lines: &'a [usize],
    weights: &'a [i128],
    ordered: &'a [usize],
    suffix: &'a [i128],
}

impl SearchSpace<'_> {
    spec fn wf(&self) -> bool {
        let n = self.adjacency@.len();
        let m = self.ordered@.len();
        &&& conflict_graph::is_graph(self.adjacency@)
        &&& self.lines@.len() == n
        &&& self.weights@.len() == n
        &&& m <= 255
        &&& self.suffix@.len() == m + 1
        &&& self.ordered@.no_duplicates()
        &&& forall|q: int| 0 <= q < m ==> (#[trigger] self.ordered@[q]) < n
        &&& forall|k: int| 0 <= k < n ==> 0 <= #[trigger] self.weights@[k] <= WEIGHT_LIMIT
        &&& forall|q: int|
            0 <= q <= m ==> (#[trigger] self.suffix@[q]) == rest_weight(
                self.ordered@,
                self.weights@,
                q,
            ) && self.suffix@[q] <= (m - q) * WEIGHT_LIMIT
    }

    /// Decides the nodes from position `p` on, each way, and keeps the best.
    fn search(&self, p: usize, score: i128, current: &mut Vec<bool>, best: &mut BestChoice)
        requires
            self.wf(),
            p <= self.ordered@.len(),
            admissible(conflict_graph::graph_of(self.adjacency@), self.ordered@, old(current)@),
            open_from(old(current)@, self.ordered@, p as int),
            score == weight(old(current)@, self.weights@),
            0 <= score <= p * WEIGHT_LIMIT,
            old(best).wf(conflict_graph::graph_of(self.adjacency@), self.weights@, self.ordered@),
        ensures
            final(current)@ == old(current)@,
            final(best).wf(conflict_graph::graph_of(self.adjacency@), self.weights@, self.ordered@),
            no_worse(*final(best), *old(best), self.weights@, self.lines@),
            settled(
                *final(best),
                conflict_graph::graph_of(self.adjacency@),
                self.weights@,
                self.lines@,
                self.ordered@,
                old(current)@,
                p as int,
            ),
        decreases self.ordered@.len() - p,
    {
        let ghost adj = conflict_graph::graph_of(self.adjacency@);
        let ghost w = self.weights@;
        let ghost ls = self.lines@;
        let ghost ordered = self.ordered@;
        if p >= self.ordered.len() {
            let replace = if !best.found || score > best.score {
                true
            } else if score < best.score {
                false
            } else {
                let mine = chosen_line_list(current, self.lines);
                let theirs = chosen_line_list(&best.set, self.lines);
                comes_first(&mine, &theirs)
            };
            if replace {
                let copy = current.clone();
                assert(copy@ =~= current@);
                *best = BestChoice { found: true, score, set: copy };
            }
            proof {
                assert forall|e: Seq<bool>| #[trigger]
                    admissible(adj, ordered, e) && extends(
                        e,
                        current@,
                        ordered,
                        p as int,
                    ) implies !better(e, best.set@, w, ls) by {
                    assert(e =~= current@);
                    if replace {
                        lemma_lex_irreflexive(lines::listing(chosen_lines(e, ls)));
                    }
                }
            }
            return ;
        }
        assert(0 <= self.suffix@[p as int] <= (ordered.len() - p) * WEIGHT_LIMIT) by {
            assert(self.suffix@[p as int] == rest_weight(ordered, w, p as int));
            lemma_rest_nonnegative(ordered, w, p as int);
        }
        assert(p * WEIGHT_LIMIT <= 255 * WEIGHT_LIMIT) by (nonlinear_arith)
            requires
                p <= 255,
        ;
        assert((ordered.len() - p) * WEIGHT_LIMIT <= 255 * WEIGHT_LIMIT) by (nonlinear_arith)
            requires
                0 <= ordered.len() - p <= 255,
        ;
        if best.found && score + self.suffix[p] < best.score {
            proof {
                assert forall|e: Seq<bool>| #[trigger]
                    admissible(adj, ordered, e) && extends(
                        e,
                        current@,
                        ordered,
                        p as int,
                    ) implies !better(e, best.set@, w, ls) by {
                    lemma_extends_bound(e, current@, ordered, w, p as int);
                }
            }
            return ;
        }
        let node = self.ordered[p];
        let ghost start = current@;
        let ghost best0 = *best;
        let ghost with = start.update(node as int, true);
        assert(!start[node as int]);
        let blocked = has_chosen_neighbor(self.adjacency, node, current);
        proof {
            assert forall|q: int| p + 1 <= q < ordered.len() implies !with[
                #[trigger] ordered[q] as int
            ] && !start[ordered[q] as int] by {
                assert(ordered[q] != ordered[p as int]);
            }
            assert(p * WEIGHT_LIMIT + WEIGHT_LIMIT == (p + 1) * WEIGHT_LIMIT) by (nonlinear_arith);
            if !blocked {
                lemma_add_admissible(adj, ordered, start, p as int);
            }
        }
        if !blocked {
            current.set(node, true);
            proof {
                lemma_weight_update(start, w, node as int);
            }
            self.search(p + 1, score + self.weights[node], current, best);
            current.set(node, false);
            assert(current@ =~= start);
        }
        let ghost best1 = *best;
        self.search(p + 1, score, current, best);
        proof {
            assert(no_worse(*best, best0, w, ls)) by {
                if best0.found && best.set@ != best1.set@ && best1.set@ != best0.set@ {
                    lemma_better_transitive(best.set@, best1.set@, best0.set@, w, ls);
                }
            }
            assert forall|e: Seq<bool>| #[trigger]
                admissible(adj, ordered, e) && extends(
                    e,
                    start,
                    ordered,
                    p as int,
                ) implies !better(e, best.set@, w, ls) by {
                lemma_extends_step(e, start, ordered, p as int);
                if e[node as int] {
                    if blocked {
                        let k = choose|k: int|
                            0 <= k < start.len() && #[trigger] start[k]
                                && conflict_graph::adjacent(adj, node as int, k);
                        lemma_kept(e, start, ordered, p as int, k);
                        assert(e[k]);
                        assert(false);
                    } else {
                        assert(!better(e, best1.set@, w, ls));
                        if better(e, best.set@, w, ls) && best.set@ != best1.set@ {
                            lemma_better_transitive(e, best.set@, best1.set@, w, ls);
                        }
                    }
                }
            }
        }
    }
}

proof fn lemma_lex_irreflexive(a: Seq<usize>)
    ensures
        !lex_less(a, a),
    decreases a.len(),
{
    if a.len() > 0 {
        lemma_lex_irreflexive(a.drop_first());
    }
}

proof fn lemma_rest_nonnegative(ordered: Seq<usize>, w: Seq<i128>, p: int)
    requires
        0 <= p <= ordered.len(),
        forall|q: int| 0 <= q < ordered.len() ==> (#[trigger] ordered[q]) < w.len(),
        forall|k: int| 0 <= k < w.len() ==> 0 <= #[trigger] w[k],
    ensures
        rest_weight(ordered, w, p) >= 0,
    decreases ordered.len() - p,
{
    if p < ordered.len() {
        assert(w[ordered[p] as int] >= 0);
        lemma_rest_nonnegative(ordered, w, p + 1);
    }
}

/// A node that is chosen already stays chosen in each extension.
proof fn lemma_kept(e: Seq<bool>, current: Seq<bool>, ordered: Seq<usize>, p: int, k: int)
    requires
        extends(e, current, ordered, p),
        open_from(current, ordered, p),
        0 <= k < current.len(),
        current[k],
    ensures
        e[k],
{
    if !e[k] {
        let q = choose|q: int| p <= q < ordered.len() && ordered[q] == k;
        assert(!current[ordered[q] as int]);
    }
}

proof fn lemma_add_admissible(adj: conflict_graph::Graph, ordered: Seq<usize>, d: Seq<bool>, p: int)
    requires
        conflict_graph::symmetric(adj),
        admissible(adj, ordered, d),
        0 <= p < ordered.len(),
        ordered[p] < adj.n,
        forall|k: int|
            0 <= k < d.len() && #[trigger] d[k] ==> !conflict_graph::adjacent(
                adj,
                ordered[p] as int,
                k,
            ),
    ensures
        admissible(adj, ordered, d.update(ordered[p] as int, true)),
{
    let node = ordered[p] as int;
    let with = d.update(node, true);
    assert forall|i: int, j: int|
        0 <= i < with.len() && 0 <= j < with.len() && i != j && #[trigger] with[i]
            && #[trigger] with[j] implies !conflict_graph::adjacent(adj, i, j) by {
        if conflict_graph::adjacent(adj, i, j) {
            assert(conflict_graph::adjacent(adj, j, i));
            if i == node {
                assert(d[j]);
            } else if j == node {
                assert(d[i]);
            } else {
                assert(d[i] && d[j]);
            }
        }
    }
    assert forall|i: int| 0 <= i < with.len() && #[trigger] with[i] implies ordered.contains(
        i as usize,
    ) by {
        if i == node {
            assert(ordered[p] == i as usize);
        } else {
            assert(d[i]);
        }
    }
}

/// The sums of the weights from each position on.
fn suffix_weights(weights: &[i128], ordered: &[usize]) -> (suffix: Vec<i128>)
    requires
        ordered@.len() <= 255,
        forall|q: int| 0 <= q < ordered@.len() ==> (#[trigger] ordered@[q]) < weights@.len(),
        forall|k: int| 0 <= k < weights@.len() ==> 0 <= #[trigger] weights@[k] <= WEIGHT_LIMIT,
    ensures
        suffix@.len() == ordered@.len() + 1,
        forall|q: int|
            0 <= q <= ordered@.len() ==> (#[trigger] suffix@[q]) == rest_weight(
                ordered@,
                weights@,
                q,
            ) && suffix@[q] <= (ordered@.len() - q) * WEIGHT_LIMIT,
{
    let m = ordered.len();
    let mut suffix: Vec<i128> = vec![0i128; m + 1];
    let mut i: usize = m;
    assert(suffix@[m as int] == 0);
    while i > 0
        invariant
            m == ordered@.len(),
            m <= 255,
            i <= m,
            suffix@.len() == m + 1,
            forall|q: int| 0 <= q < m ==> (#[trigger] ordered@[q]) < weights@.len(),
            forall|k: int| 0 <= k < weights@.len() ==> 0 <= #[trigger] weights@[k] <= WEIGHT_LIMIT,
            forall|q: int|
                i <= q <= m ==> 0 <= (#[trigger] suffix@[q]) && suffix@[q] == rest_weight(
                    ordered@,
                    weights@,
                    q,
                ) && suffix@[q] <= (m - q) * WEIGHT_LIMIT,
        decreases i,
    {
        let node = ordered[i - 1];
        proof {
            assert(suffix@[i as int] <= (m - i) * WEIGHT_LIMIT);
            assert((m - i) * WEIGHT_LIMIT + WEIGHT_LIMIT == (m - (i - 1)) * WEIGHT_LIMIT)
                by (nonlinear_arith);
            assert((m - i) * WEIGHT_LIMIT <= 255 * WEIGHT_LIMIT) by (nonlinear_arith)
                requires
                    0 <= m - i <= 255,
            ;
            assert(weights@[node as int] <= WEIGHT_LIMIT);
        }
        let sum: i128 = suffix[i] + weights[node];
        suffix.set(i - 1, sum);
        i -= 1;
    }
    suffix
}

/// The independent choice from `ordered` that is preferred to all others.
pub fn best_choice(
    adjacency: &[Vec<usize>],
    lines: &[usize],
    weights: &[i128],
    ordered: &[usize],
) -> (d: Vec<bool>)
    requires
        conflict_graph::is_graph(adjacency@),
        lines@.len() == adjacency@.len(),
        weights@.len() == adjacency@.len(),
        ordered@.len() <= 255,
        ordered@.no_duplicates(),
        forall|q: int| 0 <= q < ordered@.len() ==> (#[trigger] ordered@[q]) < adjacency@.len(),
        forall|k: int| 0 <= k < weights@.len() ==> 0 <= #[trigger] weights@[k] <= WEIGHT_LIMIT,
    ensures
        is_best(conflict_graph::graph_of(adjacency@), weights@, lines@, ordered@, d@),
{
    let suffix = suffix_weights(weights, ordered);
    let space = SearchSpace { adjacency, lines, weights, ordered, suffix: suffix.as_slice() };
    let mut current: Vec<bool> = vec![false; adjacency.len()];
    let mut best = BestChoice { found: false, score: 0, set: Vec::new() };
    let ghost none = current@;
    proof {
        lemma_weight_none(current@, weights@);
        assert(open_from(current@, ordered@, 0));
    }
    space.search(0, 0, &mut current, &mut best);
    proof {
        assert forall|e: Seq<bool>| #[trigger]
            admissible(conflict_graph::graph_of(adjacency@), ordered@, e) implies !better(
            e,
            best.set@,
            weights@,
            lines@,
        ) by {
            assert forall|k: int| 0 <= k < e.len() implies #[trigger] e[k] == none[k] || (exists|
                q: int,
            | 0 <= q < ordered@.len() && ordered@[q] == k) by {
                if e[k] {
                    let q = choose|q: int| 0 <= q < ordered@.len() && ordered@[q] == k as usize;
                    assert(0 <= q < ordered@.len() && ordered@[q] == k);
                }
            }
            assert(extends(e, none, ordered@, 0));
        }
    }
    best.set
}

proof fn lemma_lex_total(a: Seq<usize>, b: Seq<usize>)
    requires
        !lex_less(a, b),
        !lex_less(b, a),
    ensures
        a == b,
    decreases a.len(),
{
    if a.len() > 0 && b.len() > 0 {
        lemma_lex_total(a.drop_first(), b.drop_first());
        assert(a =~= seq![a[0]] + a.drop_first());
        assert(b =~= seq![b[0]] + b.drop_first());
    } else {
        assert(a =~= b);
    }
}

proof fn lemma_chosen_finite(d: Seq<bool>, lines: Seq<usize>)
    requires
        d.len() <= lines.len(),
    ensures
        chosen_lines(d, lines).finite(),
{
    assert(chosen_lines(d, lines).subset_of(lines.to_set())) by {
        assert forall|line: usize| chosen_lines(d, lines).contains(
            line,
        ) implies lines.to_set().contains(line) by {
            let k = choose|k: int| 0 <= k < d.len() && #[trigger] d[k] && lines[k] == line;
            assert(lines[k] == line);
        }
    }
    vstd::seq_lib::seq_to_set_is_finite(lines);
    vstd::set_lib::lemma_set_subset_finite(lines.to_set(), chosen_lines(d, lines));
}

/// Where no two nodes share a line, there is one best choice only.
pub proof fn lemma_best_unique(
    adj: conflict_graph::Graph,
    w: Seq<i128>,
    lines: Seq<usize>,
    part: Seq<usize>,
    d: Seq<bool>,
    e: Seq<bool>,
)
    requires
        lines.len() == adj.n,
        lines.no_duplicates(),
        is_best(adj, w, lines, part, d),
        is_best(adj, w, lines, part, e),
    ensures
        d == e,
{
    assert(!better(e, d, w, lines));
    assert(!better(d, e, w, lines));
    let ours = chosen_lines(d, lines);
    let theirs = chosen_lines(e, lines);
    lemma_chosen_finite(d, lines);
    lemma_chosen_finite(e, lines);
    lines::lemma_listing_exists(ours);
    lines::lemma_listing_exists(theirs);
    lemma_lex_total(lines::listing(ours), lines::listing(theirs));
    assert(ours == theirs);
    assert forall|k: int| 0 <= k < d.len() implies d[k] == e[k] by {
        if d[k] {
            assert(ours.contains(lines[k]));
            let m = choose|m: int| 0 <= m < e.len() && #[trigger] e[m] && lines[m] == lines[k];
            assert(m == k);
        }
        if e[k] {
            assert(theirs.contains(lines[k]));
            let m = choose|m: int| 0 <= m < d.len() && #[trigger] d[m] && lines[m] == lines[k];
            assert(m == k);
        }
    }
    assert(d =~= e);
}

/// Whether `d` is the greedy choice along `ordered`: a node is chosen unless
/// a neighbor that comes before it was.
pub open spec fn is_greedy(adj: conflict_graph::Graph, ordered: Seq<usize>, d: Seq<bool>) -> bool {
    &&& d.len() == adj.n
    &&& within(d, ordered)
    &&& forall|q: int|
        0 <= q < ordered.len() ==> (d[#[trigger] ordered[q] as int] <==> !taken_before(
            adj,
            ordered,
            d,
            q,
        ))
}

/// Whether a neighbor of the node at position `q` comes before it and is
/// chosen.
pub open spec fn taken_before(
    adj: conflict_graph::Graph,
    ordered: Seq<usize>,
    d: Seq<bool>,
    q: int,
) -> bool {
    exists|r: int|
        0 <= r < q && d[#[trigger] ordered[r] as int] && conflict_graph::adjacent(
            adj,
            ordered[q] as int,
            ordered[r] as int,
        )
}

/// The greedy choice holds no two neighbors.
pub proof fn lemma_greedy_independent(adj: conflict_graph::Graph, ordered: Seq<usize>, d: Seq<bool>)
    requires
        adj.n <= usize::MAX,
        conflict_graph::symmetric(adj),
        is_greedy(adj, ordered, d),
    ensures
        independent(adj, d),
{
    assert forall|i: int, j: int|
        0 <= i < d.len() && 0 <= j < d.len() && i != j && #[trigger] d[i]
            && #[trigger] d[j] implies !conflict_graph::adjacent(adj, i, j) by {
        if conflict_graph::adjacent(adj, i, j) {
            assert(conflict_graph::adjacent(adj, j, i));
            let a = choose|a: int| 0 <= a < ordered.len() && ordered[a] == i as usize;
            let b = choose|b: int| 0 <= b < ordered.len() && ordered[b] == j as usize;
            if a < b {
                assert(d[ordered[a] as int]);
                assert(taken_before(adj, ordered, d, b));
            } else {
                assert(d[ordered[b] as int]);
                assert(taken_before(adj, ordered, d, a));
            }
        }
    }
}

/// Chooses along `ordered`, skipping each node that has a chosen neighbor.
pub fn greedy_choice(adjacency: &[Vec<usize>], ordered: &[usize]) -> (d: Vec<bool>)
    requires
        conflict_graph::is_graph(adjacency@),
        ordered@.no_duplicates(),
        forall|q: int| 0 <= q < ordered@.len() ==> (#[trigger] ordered@[q]) < adjacency@.len(),
    ensures
        is_greedy(conflict_graph::graph_of(adjacency@), ordered@, d@),
{
    let mut d: Vec<bool> = vec![false; adjacency.len()];
    let mut i: usize = 0;
    while i < ordered.len()
        invariant
            conflict_graph::is_graph(adjacency@),
            ordered@.no_duplicates(),
            forall|q: int| 0 <= q < ordered@.len() ==> (#[trigger] ordered@[q]) < adjacency@.len(),
            i <= ordered@.len(),
            d@.len() == adjacency@.len(),
            forall|k: int|
                0 <= k < d@.len() && #[trigger] d@[k] ==> exists|q: int|
                    0 <= q < i && ordered@[q] == k,
            forall|q: int|
                0 <= q < i ==> (d@[#[trigger] ordered@[q] as int] <==> !taken_before(conflict_graph::graph_of(adjacency@),
                    ordered@,
                    d@,
                    q,
                )),
        decreases ordered@.len() - i,
    {
        let node = ordered[i];
        let ghost was = d@;
        let blocked = has_chosen_neighbor(adjacency, node, &d);
        assert(!was[node as int]) by {
            if was[node as int] {
                let q = choose|q: int| 0 <= q < i && ordered@[q] == node as int;
                assert(ordered@[q] == ordered@[i as int]);
            }
        }
        if !blocked {
            d.set(node, true);
        }
        proof {
            assert(blocked <==> taken_before(conflict_graph::graph_of(adjacency@), ordered@, was, i as int)) by {
                if blocked {
                    let k = choose|k: int|
                        0 <= k < was.len() && #[trigger] was[k] && conflict_graph::adjacent(conflict_graph::graph_of(adjacency@),
                            node as int,
                            k,
                        );
                    let q = choose|q: int| 0 <= q < i && ordered@[q] == k;
                    assert(was[ordered@[q] as int]);
                }
                if taken_before(conflict_graph::graph_of(adjacency@), ordered@, was, i as int) {
                    let r = choose|r: int|
                        0 <= r < i && was[#[trigger] ordered@[r] as int]
                            && conflict_graph::adjacent(conflict_graph::graph_of(adjacency@),
                            ordered@[i as int] as int,
                            ordered@[r] as int,
                        );
                    assert(was[ordered@[r] as int]);
                }
            }
            assert forall|q: int| 0 <= q < i implies d@[#[trigger] ordered@[q] as int]
                == was[ordered@[q] as int] by {
                assert(ordered@[q] != ordered@[i as int]);
            }
            assert forall|q: int| 0 <= q < i + 1 implies (d@[#[trigger] ordered@[q] as int]
                <==> !taken_before(conflict_graph::graph_of(adjacency@), ordered@, d@, q)) by {
                assert(taken_before(conflict_graph::graph_of(adjacency@), ordered@, d@, q) <==> taken_before(conflict_graph::graph_of(adjacency@),
                    ordered@,
                    was,
                    q,
                )) by {
                    if taken_before(conflict_graph::graph_of(adjacency@), ordered@, d@, q) {
                        let r = choose|r: int|
                            0 <= r < q && d@[#[trigger] ordered@[r] as int]
                                && conflict_graph::adjacent(conflict_graph::graph_of(adjacency@),
                                ordered@[q] as int,
                                ordered@[r] as int,
                            );
                        assert(was[ordered@[r] as int]);
                    }
                    if taken_before(conflict_graph::graph_of(adjacency@), ordered@, was, q) {
                        let r = choose|r: int|
                            0 <= r < q && was[#[trigger] ordered@[r] as int]
                                && conflict_graph::adjacent(conflict_graph::graph_of(adjacency@),
                                ordered@[q] as int,
                                ordered@[r] as int,
                            );
                        assert(d@[ordered@[r] as int]);
                    }
                }
            }
            assert forall|k: int| 0 <= k < d@.len() && #[trigger] d@[k] implies exists|q: int|
                0 <= q < i + 1 && ordered@[q] == k by {
                if k == node {
                    assert(ordered@[i as int] == k);
                } else {
                    assert(was[k]);
                    let q = choose|q: int| 0 <= q < i && ordered@[q] == k;
                    assert(0 <= q < i + 1 && ordered@[q] == k);
                }
            }
        }
        i += 1;
    }
    proof {
        assert forall|k: int| 0 <= k < d@.len() && #[trigger] d@[k] implies ordered@.contains(
            k as usize,
        ) by {
            let q = choose|q: int| 0 <= q < ordered@.len() && ordered@[q] == k;
            assert(ordered@[q] == k as usize);
        }
    }
    d
}

proof fn lemma_first_listed(s: Set<usize>, m: usize)
    requires
        s.finite(),
        s.contains(m),
        forall|x: usize| #[trigger] s.contains(x) ==> m <= x,
    ensures
        lines::listing(s).len() > 0,
        lines::listing(s)[0] == m,
        lines::listing(s).drop_first() == lines::listing(s.remove(m)),
{
    lines::lemma_listing_exists(s);
    let list = lines::listing(s);
    assert(list.to_set().contains(m));
    let k = choose|k: int| 0 <= k < list.len() && list[k] == m;
    assert(list.to_set().contains(list[0]));
    if k > 0 {
        assert(list[0] < list[k]);
    }
    let rest = list.drop_first();
    assert forall|i: int, j: int| 0 <= i < j < rest.len() implies rest[i] < rest[j] by {
        assert(list[i + 1] < list[j + 1]);
    }
    assert forall|x: usize| rest.to_set().contains(x) <==> s.remove(m).contains(x) by {
        if rest.to_set().contains(x) {
            let i = choose|i: int| 0 <= i < rest.len() && rest[i] == x;
            assert(list[i + 1] == x);
            assert(list.to_set().contains(x));
            assert(list[0] < list[i + 1]);
        }
        if s.remove(m).contains(x) {
            assert(list.to_set().contains(x));
            let i = choose|i: int| 0 <= i < list.len() && list[i] == x;
            assert(rest[i - 1] == x);
        }
    }
    assert(rest.to_set() =~= s.remove(m));
    lines::lemma_listing_unique(rest, s.remove(m));
}

/// A list in which an element gives way to a smaller one comes first.
pub proof fn lemma_smaller_element_comes_first(s: Set<usize>, x: usize, y: usize)
    requires
        s.finite(),
        s.contains(y),
        !s.contains(x),
        x < y,
    ensures
        lex_less(lines::listing(s.remove(y).insert(x)), lines::listing(s)),
    decreases s.len(),
{
    let t = s.remove(y).insert(x);
    lines::lemma_listing_exists(s);
    let list = lines::listing(s);
    assert(list.to_set().contains(y));
    assert(list.len() > 0);
    let m = list[0];
    assert(list.to_set().contains(m));
    assert forall|z: usize| #[trigger] s.contains(z) implies m <= z by {
        assert(list.to_set().contains(z));
        let k = choose|k: int| 0 <= k < list.len() && list[k] == z;
        if k > 0 {
            assert(list[0] < list[k]);
        }
    }
    if x < m {
        lemma_first_listed(t, x);
    } else {
        lemma_first_listed(s, m);
        lemma_first_listed(t, m);
        let rest = s.remove(m);
        lemma_smaller_element_comes_first(rest, x, y);
        assert(rest.remove(y).insert(x) =~= t.remove(m));
    }
}

} // verus!
