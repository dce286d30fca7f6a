//! Weighted conflict graphs: connected components, best independent sets and
//! the greedy choice.
use std::collections::BTreeSet;
use vstd::prelude::*;

use crate::lines;

verus! {

/// A graph on the nodes below `n`.
#[verifier::ext_equal]
pub ghost struct Graph {
    pub n: nat,
    pub edge: spec_fn(int, int) -> bool,
}

/// The graph whose edges are given by lists of neighbors.
pub open spec fn graph_of(lists: Seq<Vec<usize>>) -> Graph {
    Graph {
        n: lists.len(),
        edge: |i: int, j: int|
            0 <= i < lists.len() && 0 <= j < lists.len() && lists[i]@.contains(j as usize),
    }
}

/// Whether `i` and `j` are neighbors.
pub open spec fn adjacent(adj: Graph, i: int, j: int) -> bool {
    0 <= i < adj.n && 0 <= j < adj.n && (adj.edge)(i, j)
}

/// Whether the lists name nodes of the graph only, and each edge both ways.
pub open spec fn is_graph(lists: Seq<Vec<usize>>) -> bool {
    &&& lists.len() <= usize::MAX
    &&& forall|i: int, k: int|
        0 <= i < lists.len() && 0 <= k < lists[i]@.len() ==> (#[trigger] lists[i]@[k])
            < lists.len()
    &&& symmetric(graph_of(lists))
}

/// Whether each edge runs both ways.
pub open spec fn symmetric(adj: Graph) -> bool {
    forall|i: int, j: int| #[trigger] adjacent(adj, i, j) ==> adjacent(adj, j, i)
}

/// Whether each node of `path` is a neighbor of the next.
pub open spec fn is_path(adj: Graph, path: Seq<int>) -> bool {
    &&& path.len() > 0
    &&& forall|k: int| 0 <= k < path.len() ==> 0 <= #[trigger] path[k] < adj.n
    &&& forall|k: int|
        0 <= k < path.len() - 1 ==> adjacent(adj, #[trigger] path[k], path[k + 1])
}

/// Whether a path leads from `i` to `j`.
pub open spec fn connected(adj: Graph, i: int, j: int) -> bool {
    exists|path: Seq<int>| #[trigger] is_path(adj, path) && path[0] == i && path.last() == j
}

pub proof fn lemma_connected_self(adj: Graph, i: int)
    requires
        0 <= i < adj.n,
    ensures
        connected(adj, i, i),
{
    assert(is_path(adj, seq![i]));
}

/// A further edge extends a connection.
pub proof fn lemma_connected_step(adj: Graph, i: int, j: int, k: int)
    requires
        connected(adj, i, j),
        adjacent(adj, j, k),
    ensures
        connected(adj, i, k),
{
    let path = choose|path: Seq<int>|
        #[trigger] is_path(adj, path) && path[0] == i && path.last() == j;
    let longer = path.push(k);
    assert forall|m: int| 0 <= m < longer.len() - 1 implies adjacent(
        adj,
        #[trigger] longer[m],
        longer[m + 1],
    ) by {
        if m < path.len() - 1 {
            assert(adjacent(adj, path[m], path[m + 1]));
        }
    }
    assert(is_path(adj, longer));
}

/// Connection runs both ways.
pub proof fn lemma_connected_symmetric(adj: Graph, i: int, j: int)
    requires
        symmetric(adj),
        connected(adj, i, j),
    ensures
        connected(adj, j, i),
{
    let path = choose|path: Seq<int>|
        #[trigger] is_path(adj, path) && path[0] == i && path.last() == j;
    let back = path.reverse();
    assert forall|m: int| 0 <= m < back.len() implies 0 <= #[trigger] back[m] < adj.n by {
        assert(back[m] == path[path.len() - 1 - m]);
    }
    assert forall|m: int| 0 <= m < back.len() - 1 implies adjacent(
        adj,
        #[trigger] back[m],
        back[m + 1],
    ) by {
        let at = path.len() - 2 - m;
        assert(adjacent(adj, path[at], path[at + 1]));
    }
    assert(is_path(adj, back));
}

/// Connection is transitive.
pub proof fn lemma_connected_transitive(adj: Graph, i: int, j: int, k: int)
    requires
        connected(adj, i, j),
        connected(adj, j, k),
    ensures
        connected(adj, i, k),
{
    let path = choose|path: Seq<int>|
        #[trigger] is_path(adj, path) && path[0] == j && path.last() == k;
    lemma_follow(adj, i, path, path.len() - 1);
}

proof fn lemma_follow(adj: Graph, i: int, path: Seq<int>, m: int)
    requires
        is_path(adj, path),
        connected(adj, i, path[0]),
        0 <= m < path.len(),
    ensures
        connected(adj, i, path[m]),
    decreases m,
{
    if m > 0 {
        lemma_follow(adj, i, path, m - 1);
        assert(adjacent(adj, path[m - 1], path[m]));
        lemma_connected_step(adj, i, path[m - 1], path[m]);
    }
}

proof fn lemma_closed_along(adj: Graph, inside: Set<int>, path: Seq<int>, m: int)
    requires
        is_path(adj, path),
        inside.contains(path[0]),
        forall|x: int, y: int|
            inside.contains(x) && #[trigger] adjacent(adj, x, y) ==> inside.contains(y),
        0 <= m < path.len(),
    ensures
        inside.contains(path[m]),
    decreases m,
{
    if m > 0 {
        lemma_closed_along(adj, inside, path, m - 1);
        assert(adjacent(adj, path[m - 1], path[m]));
    }
}

/// A set that holds each neighbor of its nodes holds all that is connected to
/// one of them.
proof fn lemma_closed(adj: Graph, inside: Set<int>, i: int, j: int)
    requires
        connected(adj, i, j),
        inside.contains(i),
        forall|x: int, y: int|
            inside.contains(x) && #[trigger] adjacent(adj, x, y) ==> inside.contains(y),
    ensures
        inside.contains(j),
{
    let path = choose|path: Seq<int>|
        #[trigger] is_path(adj, path) && path[0] == i && path.last() == j;
    lemma_closed_along(adj, inside, path, path.len() - 1);
}

/// A list of different nodes is no longer than the graph.
proof fn lemma_distinct_bounded(v: Seq<usize>, n: int)
    requires
        v.no_duplicates(),
        n >= 0,
        forall|k: int| 0 <= k < v.len() ==> (#[trigger] v[k]) < n,
    ensures
        v.len() <= n,
{
    let image = v.map_values(|x: usize| x as int);
    assert(image.no_duplicates());
    image.unique_seq_to_set();
    let all = vstd::set_lib::set_int_range(0, n);
    vstd::set_lib::lemma_int_range(0, n);
    assert(image.to_set().subset_of(all)) by {
        assert forall|x: int| image.to_set().contains(x) implies all.contains(x) by {
            let k = choose|k: int| 0 <= k < image.len() && image[k] == x;
            assert(v[k] < n);
        }
    }
    vstd::set_lib::lemma_len_subset(image.to_set(), all);
}

/// Whether `parts` are the connected components of the graph: each in
/// increasing order, and ordered by their smallest nodes.
pub open spec fn are_components(adj: Graph, parts: Seq<Vec<usize>>) -> bool {
    &&& forall|c: int| 0 <= c < parts.len() ==> is_component(adj, #[trigger] parts[c]@)
    &&& forall|c: int, d: int| 0 <= c < d < parts.len() ==> parts[c]@[0] < parts[d]@[0]
    &&& forall|i: int| 0 <= i < adj.n ==> #[trigger] covered(parts, i)
}

/// Whether one of the parts holds the node.
pub open spec fn covered(parts: Seq<Vec<usize>>, i: int) -> bool {
    exists|c: int| 0 <= c < parts.len() && (#[trigger] parts[c])@.contains(i as usize)
}

/// Whether `part` lists, in increasing order, what is connected to its first
/// node.
pub open spec fn is_component(adj: Graph, part: Seq<usize>) -> bool {
    &&& part.len() > 0
    &&& lines::increasing(part)
    &&& forall|k: int| 0 <= k < part.len() ==> (#[trigger] part[k]) < adj.n
    &&& forall|j: int|
        0 <= j < adj.n ==> (#[trigger] part.contains(j as usize) <==> connected(
            adj,
            part[0] as int,
            j,
        ))
}

/// Each node lies in a component.
pub proof fn lemma_component_of(adj: Graph, k: int) -> (part: Seq<usize>)
    requires
        adj.n <= usize::MAX,
        symmetric(adj),
        0 <= k < adj.n,
    ensures
        is_component(adj, part),
        part.contains(k as usize),
{
    let reach = Set::new(|x: usize| x < adj.n && connected(adj, k, x as int));
    let all = Seq::new(adj.n, |i: int| i as usize);
    vstd::seq_lib::seq_to_set_is_finite(all);
    assert(reach.subset_of(all.to_set())) by {
        assert forall|x: usize| reach.contains(x) implies all.to_set().contains(x) by {
            assert(all[x as int] == x);
        }
    }
    vstd::set_lib::lemma_set_subset_finite(all.to_set(), reach);
    lines::lemma_listing_exists(reach);
    let part = lines::listing(reach);
    lemma_connected_self(adj, k);
    assert(reach.contains(k as usize));
    assert(part.to_set().contains(k as usize));
    assert forall|m: int| 0 <= m < part.len() implies (#[trigger] part[m]) < adj.n by {
        assert(part.to_set().contains(part[m]));
    }
    assert(part.to_set().contains(part[0]));
    let first = part[0] as int;
    assert forall|j: int| 0 <= j < adj.n implies (#[trigger] part.contains(j as usize)
        <==> connected(adj, first, j)) by {
        if part.contains(j as usize) {
            assert(part.to_set().contains(j as usize));
            lemma_connected_symmetric(adj, k, first);
            lemma_connected_transitive(adj, first, k, j);
        }
        if connected(adj, first, j) {
            lemma_connected_transitive(adj, k, first, j);
            assert(reach.contains(j as usize));
            assert(part.to_set().contains(j as usize));
        }
    }
    part
}

/// What holds while the search from `seed` goes on: the marked nodes are those
/// marked before, those in `done` and those that wait on the stack.
spec fn marking(
    adj: Graph,
    before: Seq<bool>,
    visited: Seq<bool>,
    seed: int,
    done: Seq<usize>,
    stack: Seq<usize>,
) -> bool {
    let n = adj.n;
    &&& before.len() == n
    &&& visited.len() == n
    &&& 0 <= seed < n
    &&& visited[seed]
    &&& forall|x: int| 0 <= x < n && before[x] ==> #[trigger] visited[x]
    &&& forall|x: int|
        0 <= x < n && #[trigger] visited[x] ==> before[x] || connected(adj, seed, x)
    &&& (done + stack).no_duplicates()
    &&& forall|k: int|
        0 <= k < done.len() ==> (#[trigger] done[k]) < n && visited[done[k] as int]
    &&& forall|k: int|
        0 <= k < stack.len() ==> (#[trigger] stack[k]) < n && visited[stack[k] as int]
            && connected(adj, seed, stack[k] as int)
    &&& forall|x: int|
        0 <= x < n && #[trigger] visited[x] ==> before[x] || done.contains(x as usize)
            || stack.contains(x as usize)
}

/// Whether each neighbor of the nodes in `done` is marked.
spec fn handled(adj: Graph, visited: Seq<bool>, done: Seq<usize>) -> bool {
    forall|x: int, y: int|
        0 <= x < adj.n && done.contains(x as usize) && #[trigger] adjacent(adj, x, y)
            ==> visited[y]
}

proof fn lemma_marking_push(
    adj: Graph,
    before: Seq<bool>,
    visited: Seq<bool>,
    seed: int,
    done: Seq<usize>,
    stack: Seq<usize>,
    x: usize,
)
    requires
        marking(adj, before, visited, seed, done, stack),
        x < adj.n,
        !visited[x as int],
        connected(adj, seed, x as int),
    ensures
        marking(adj, before, visited.update(x as int, true), seed, done, stack.push(x)),
{
    let now = visited.update(x as int, true);
    let pile = stack.push(x);
    assert(done + pile =~= (done + stack).push(x));
    assert forall|m: int| 0 <= m < (done + stack).len() implies (done + stack)[m] != x by {
        if m < done.len() {
            assert((done + stack)[m] == done[m]);
        } else {
            assert((done + stack)[m] == stack[m - done.len()]);
        }
    }
    assert(pile[pile.len() - 1] == x);
    assert forall|y: int| 0 <= y < adj.n && #[trigger] now[y] implies before[y]
        || done.contains(y as usize) || pile.contains(y as usize) by {
        if y != x {
            assert(visited[y]);
            if stack.contains(y as usize) {
                let m = choose|m: int| 0 <= m < stack.len() && stack[m] == y as usize;
                assert(pile[m] == y as usize);
            }
        }
    }
    assert forall|y: int| 0 <= y < adj.n && #[trigger] now[y] implies before[y] || connected(
        adj,
        seed,
        y,
    ) by {
        if y != x {
            assert(visited[y]);
        }
    }
    assert forall|k: int| 0 <= k < pile.len() implies (#[trigger] pile[k]) < adj.n
        && now[pile[k] as int] && connected(adj, seed, pile[k] as int) by {
        if k < stack.len() {
            assert(pile[k] == stack[k]);
        }
    }
    assert forall|y: int| 0 <= y < adj.n && before[y] implies #[trigger] now[y] by {
        assert(visited[y]);
    }
}

proof fn lemma_marking_pop(
    adj: Graph,
    before: Seq<bool>,
    visited: Seq<bool>,
    seed: int,
    done: Seq<usize>,
    stack: Seq<usize>,
)
    requires
        marking(adj, before, visited, seed, done, stack),
        stack.len() > 0,
    ensures
        marking(adj, before, visited, seed, done.push(stack.last()), stack.drop_last()),
        done.len() < adj.n,
{
    let node = stack.last();
    let rest = stack.drop_last();
    let both = done + stack;
    let moved = done.push(node) + rest;
    assert forall|k: int| 0 <= k < both.len() implies (#[trigger] both[k]) < adj.n by {
        if k < done.len() {
            assert(both[k] == done[k]);
        } else {
            assert(both[k] == stack[k - done.len()]);
        }
    }
    lemma_distinct_bounded(both, adj.n as int);
    assert forall|a: int, b: int| 0 <= a < b < moved.len() implies moved[a] != moved[b] by {
        let from = |k: int|
            if k < done.len() {
                k
            } else if k == done.len() {
                both.len() - 1
            } else {
                k - 1
            };
        assert(moved[a] == both[from(a)]);
        assert(moved[b] == both[from(b)]);
    }
    assert(stack[stack.len() - 1] == node);
    assert forall|x: int| 0 <= x < adj.n && #[trigger] visited[x] implies before[x]
        || done.push(node).contains(x as usize) || rest.contains(x as usize) by {
        if done.contains(x as usize) {
            let m = choose|m: int| 0 <= m < done.len() && done[m] == x as usize;
            assert(done.push(node)[m] == x as usize);
        } else if stack.contains(x as usize) {
            let m = choose|m: int| 0 <= m < stack.len() && stack[m] == x as usize;
            if m < rest.len() {
                assert(rest[m] == x as usize);
            } else {
                assert(done.push(node)[done.len() as int] == x as usize);
            }
        }
    }
    assert forall|k: int| 0 <= k < rest.len() implies (#[trigger] rest[k]) < adj.n
        && visited[rest[k] as int] && connected(adj, seed, rest[k] as int) by {
        assert(rest[k] == stack[k]);
    }
}

/// Marks and stacks the neighbors of `node` that are not marked yet.
fn push_neighbors(
    adjacency: &[Vec<usize>],
    seed: usize,
    node: usize,
    visited: &mut Vec<bool>,
    stack: &mut Vec<usize>,
    Ghost(before): Ghost<Seq<bool>>,
    Ghost(done): Ghost<Seq<usize>>,
)
    requires
        is_graph(adjacency@),
        node < adjacency@.len(),
        connected(graph_of(adjacency@), seed as int, node as int),
        marking(graph_of(adjacency@), before, old(visited)@, seed as int, done, old(stack)@),
    ensures
        marking(graph_of(adjacency@), before, final(visited)@, seed as int, done, final(stack)@),
        forall|x: int|
            0 <= x < adjacency@.len() && old(visited)@[x] ==> #[trigger] final(visited)@[x],
        forall|y: int| #[trigger]
            adjacent(graph_of(adjacency@), node as int, y) ==> final(visited)@[y],
{
    let neighbors = &adjacency[node];
    let mut k: usize = 0;
    while k < neighbors.len()
        invariant
            is_graph(adjacency@),
            node < adjacency@.len(),
            k <= neighbors@.len(),
            neighbors@ == adjacency@[node as int]@,
            connected(graph_of(adjacency@), seed as int, node as int),
            marking(graph_of(adjacency@), before, visited@, seed as int, done, stack@),
            old(visited)@.len() == adjacency@.len(),
            forall|x: int|
                0 <= x < adjacency@.len() && old(visited)@[x] ==> #[trigger] visited@[x],
            forall|m: int| 0 <= m < k ==> visited@[#[trigger] neighbors@[m] as int],
        decreases neighbors@.len() - k,
    {
        let neighbor = neighbors[k];
        assert(adjacency@[node as int]@[k as int] < adjacency@.len());
        if !visited[neighbor] {
            proof {
                assert(adjacent(graph_of(adjacency@), node as int, neighbor as int));
                lemma_connected_step(graph_of(adjacency@), seed as int, node as int, neighbor as int);
                lemma_marking_push(graph_of(adjacency@),
                    before,
                    visited@,
                    seed as int,
                    done,
                    stack@,
                    neighbor,
                );
            }
            visited.set(neighbor, true);
            stack.push(neighbor);
        }
        k += 1;
    }
    proof {
        assert forall|y: int| #[trigger] adjacent(graph_of(adjacency@), node as int, y) implies visited@[
            y
        ] by {
            let m = choose|m: int| 0 <= m < neighbors@.len() && neighbors@[m] == y as usize;
            assert(visited@[neighbors@[m] as int]);
        }
    }
}

/// Marks everything that can be reached from `seed` and was not marked before.
fn mark_from(adjacency: &[Vec<usize>], seed: usize, visited: &mut Vec<bool>)
    requires
        is_graph(adjacency@),
        old(visited)@.len() == adjacency@.len(),
        seed < adjacency@.len(),
        !old(visited)@[seed as int],
        forall|x: int, y: int|
            0 <= x < adjacency@.len() && old(visited)@[x] && #[trigger] adjacent(graph_of(adjacency@),
                x,
                y,
            ) ==> old(visited)@[y],
    ensures
        final(visited)@.len() == adjacency@.len(),
        forall|x: int|
            0 <= x < adjacency@.len() ==> #[trigger] final(visited)@[x] == (old(visited)@[x]
                || connected(graph_of(adjacency@), seed as int, x)),
        forall|x: int, y: int|
            0 <= x < adjacency@.len() && final(visited)@[x] && #[trigger] adjacent(graph_of(adjacency@),
                x,
                y,
            ) ==> final(visited)@[y],
{
    let ghost before = visited@;
    let ghost adj = graph_of(adjacency@);
    let mut stack: Vec<usize> = Vec::new();
    let ghost mut done: Seq<usize> = Seq::empty();
    stack.push(seed);
    visited.set(seed, true);
    proof {
        lemma_connected_self(adj, seed as int);
        assert(stack@[0] == seed);
        assert(done + stack@ =~= stack@);
        assert(marking(adj, before, visited@, seed as int, done, stack@));
    }
    while stack.len() > 0
        invariant
            adj == graph_of(adjacency@),
            is_graph(adjacency@),
            marking(adj, before, visited@, seed as int, done, stack@),
            handled(adj, visited@, done),
        decreases adj.n - done.len(),
    {
        let ghost old_stack = stack@;
        let ghost done0 = done;
        let ghost seen = visited@;
        proof {
            lemma_marking_pop(adj, before, visited@, seed as int, done, stack@);
            assert(old_stack[old_stack.len() - 1] < adj.n);
        }
        let node = stack.pop().unwrap();
        proof {
            assert(stack@ =~= old_stack.drop_last());
            done = done.push(node);
        }
        push_neighbors(adjacency, seed, node, visited, &mut stack, Ghost(before), Ghost(done));
        proof {
            assert forall|x: int, y: int|
                0 <= x < adj.n && done.contains(x as usize) && #[trigger] adjacent(
                    adj,
                    x,
                    y,
                ) implies visited@[y] by {
                if x != node {
                    let m = choose|m: int| 0 <= m < done.len() && done[m] == x as usize;
                    assert(done0[m] == x as usize);
                    assert(done0.contains(x as usize));
                    assert(seen[y]);
                }
            }
        }
    }
    proof {
        assert(stack@ =~= Seq::empty());
        lemma_marked(adj, before, visited@, seed as int, done);
    }
}

proof fn lemma_marked(
    adj: Graph,
    before: Seq<bool>,
    visited: Seq<bool>,
    seed: int,
    done: Seq<usize>,
)
    requires
        adj.n <= usize::MAX,
        marking(adj, before, visited, seed, done, Seq::empty()),
        handled(adj, visited, done),
        forall|x: int, y: int|
            0 <= x < adj.n && before[x] && #[trigger] adjacent(adj, x, y) ==> before[y],
    ensures
        forall|x: int|
            0 <= x < adj.n ==> #[trigger] visited[x] == (before[x] || connected(adj, seed, x)),
        forall|x: int, y: int|
            0 <= x < adj.n && visited[x] && #[trigger] adjacent(adj, x, y) ==> visited[y],
{
        let inside = Set::new(|x: int| 0 <= x < adj.n && visited[x]);
        assert forall|x: int, y: int|
            inside.contains(x) && #[trigger] adjacent(adj, x, y) implies inside.contains(y) by {
            assert(visited[x]);
            if before[x] {
                assert(before[y]);
                assert(visited[y]);
            } else {
                assert(done.contains(x as usize));
            }
        }
        assert forall|x: int| 0 <= x < adj.n implies #[trigger] visited[x] == (before[x]
            || connected(adj, seed, x)) by {
            if connected(adj, seed, x) {
                lemma_closed(adj, inside, seed, x);
            }
        }
        assert forall|x: int, y: int|
            0 <= x < adj.n && visited[x] && #[trigger] adjacent(adj, x, y) implies visited[
            y
        ] by {
            assert(inside.contains(x));
            assert(inside.contains(y));
        }
}

/// The nodes that are marked in `now` and not in `before`, in increasing order.
fn newly_marked(before: &Vec<bool>, now: &Vec<bool>) -> (part: Vec<usize>)
    requires
        before@.len() == now@.len(),
    ensures
        lines::increasing(part@),
        forall|k: int| 0 <= k < part@.len() ==> (#[trigger] part@[k]) < now@.len(),
        forall|x: int|
            0 <= x < now@.len() ==> (#[trigger] part@.contains(x as usize) <==> now@[x]
                && !before@[x]),
{
    let mut part: Vec<usize> = Vec::new();
    let mut i: usize = 0;
    while i < now.len()
        invariant
            before@.len() == now@.len(),
            i <= now@.len(),
            lines::increasing(part@),
            forall|k: int| 0 <= k < part@.len() ==> (#[trigger] part@[k]) < i,
            forall|x: int|
                0 <= x < i ==> (#[trigger] part@.contains(x as usize) <==> now@[x]
                    && !before@[x]),
        decreases now@.len() - i,
    {
        let ghost was = part@;
        if now[i] && !before[i] {
            part.push(i);
        }
        proof {
            assert forall|x: int| 0 <= x < i + 1 implies (#[trigger] part@.contains(x as usize)
                <==> now@[x] && !before@[x]) by {
                if x < i {
                    if was.contains(x as usize) {
                        let k = choose|k: int| 0 <= k < was.len() && was[k] == x as usize;
                        assert(part@[k] == x as usize);
                    }
                    if part@.contains(x as usize) {
                        let k = choose|k: int| 0 <= k < part@.len() && part@[k] == x as usize;
                        assert(was[k] == x as usize);
                    }
                } else if now@[x] && !before@[x] {
                    assert(part@[part@.len() - 1] == x as usize);
                } else {
                    if part@.contains(x as usize) {
                        let k = choose|k: int| 0 <= k < part@.len() && part@[k] == x as usize;
                        assert(part@[k] < i);
                    }
                }
            }
        }
        i += 1;
    }
    part
}

/// The connected components of a graph.
pub fn connected_components(adjacency: &[Vec<usize>]) -> (parts: Vec<Vec<usize>>)
    requires
        is_graph(adjacency@),
    ensures
        are_components(graph_of(adjacency@), parts@),
{
    let ghost adj = graph_of(adjacency@);
    let ghost n = adj.n as int;
    let mut parts: Vec<Vec<usize>> = Vec::new();
    let mut visited: Vec<bool> = vec![false; adjacency.len()];
    let mut seed: usize = 0;
    while seed < adjacency.len()
        invariant
            adj == graph_of(adjacency@),
            n == adj.n,
            is_graph(adjacency@),
            seed <= n,
            visited@.len() == n,
            forall|x: int, y: int|
                0 <= x < n && visited@[x] && #[trigger] adjacent(adj, x, y) ==> visited@[y],
            forall|x: int| 0 <= x < n ==> #[trigger] visited@[x] == covered(parts@, x),
            forall|x: int| 0 <= x < seed ==> #[trigger] visited@[x],
            forall|c: int| 0 <= c < parts@.len() ==> is_component(adj, #[trigger] parts@[c]@),
            forall|c: int| 0 <= c < parts@.len() ==> (#[trigger] parts@[c])@[0] < seed,
            forall|c: int, d: int|
                0 <= c < d < parts@.len() ==> parts@[c]@[0] < parts@[d]@[0],
        decreases n - seed,
    {
        if !visited[seed] {
            let before = visited.clone();
            assert(before@ =~= visited@);
            mark_from(adjacency, seed, &mut visited);
            let part = newly_marked(&before, &visited);
            let ghost old_parts = parts@;
            proof {
                lemma_connected_self(adj, seed as int);
                assert(visited@[seed as int]);
                assert(part@.contains(seed as int as usize));
                let at = choose|at: int| 0 <= at < part@.len() && part@[at] == seed;
                assert(part@.contains(part@[0]));
                assert(visited@[part@[0] as int] && !before@[part@[0] as int]);
                assert(part@[0] >= seed);
                assert(part@[0] == seed) by {
                    if at > 0 {
                        assert(part@[0] < part@[at]);
                    }
                }
                assert forall|j: int| 0 <= j < n implies (#[trigger] part@.contains(j as usize)
                    <==> connected(adj, seed as int, j)) by {
                    if connected(adj, seed as int, j) && before@[j] {
                        // What was marked before is closed, and `seed` was not.
                        let inside = Set::new(|x: int| 0 <= x < n && before@[x]);
                        lemma_connected_symmetric(adj, seed as int, j);
                        lemma_closed(adj, inside, j, seed as int);
                        assert(false);
                    }
                }
                assert(is_component(adj, part@));
            }
            parts.push(part);
            proof {
                assert forall|x: int| 0 <= x < n implies #[trigger] visited@[x] == covered(
                    parts@,
                    x,
                ) by {
                    if visited@[x] {
                        if before@[x] {
                            let c = choose|c: int|
                                0 <= c < old_parts.len() && (#[trigger] old_parts[c])@.contains(
                                    x as usize,
                                );
                            assert(parts@[c]@.contains(x as usize));
                        } else {
                            assert(part@.contains(x as usize));
                            assert(parts@[parts@.len() - 1]@.contains(x as usize));
                        }
                    }
                    if covered(parts@, x) {
                        let c = choose|c: int|
                            0 <= c < parts@.len() && (#[trigger] parts@[c])@.contains(x as usize);
                        if c < old_parts.len() {
                            assert(old_parts[c]@.contains(x as usize));
                            assert(covered(old_parts, x));
                            assert(before@[x]);
                        } else {
                            assert(part@.contains(x as usize));
                        }
                    }
                }
                assert forall|c: int| 0 <= c < parts@.len() implies is_component(
                    adj,
                    #[trigger] parts@[c]@,
                ) by {
                    if c < old_parts.len() {
                        assert(is_component(adj, old_parts[c]@));
                    }
                }
            }
        }
        seed += 1;
    }
    proof {
        assert forall|i: int| 0 <= i < n implies #[trigger] covered(parts@, i) by {
            assert(visited@[i]);
        }
    }
    parts
}

} // verus!
