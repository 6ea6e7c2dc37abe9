//! Breadth-first search over adjacency lists, shortest walks, and the
//! one-to-one matching of starting units with ending units.
use vstd::prelude::*;
use vstd::set_lib::{lemma_len_subset, lemma_int_range, set_int_range};

verus! {

/// There is an edge from `u` to `v` in the adjacency lists `g`.
pub open spec fn adjacent(g: Seq<Vec<usize>>, u: usize, v: usize) -> bool {
    u < g.len() && g[u as int]@.contains(v)
}

/// Every neighbour named in the adjacency lists is itself a node of the graph.
pub open spec fn graph_wf(g: Seq<Vec<usize>>) -> bool {
    forall|u: int, k: int|
        0 <= u < g.len() && 0 <= k < g[u]@.len() ==> #[trigger] g[u]@[k] < g.len()
}

/// The graph is undirected: every edge has its reverse.
pub open spec fn symmetric(g: Seq<Vec<usize>>) -> bool {
    forall|u: usize, v: usize| #[trigger] adjacent(g, u, v) ==> adjacent(g, v, u)
}

/// `p` is a non-empty sequence of nodes, each adjacent to the next.
pub open spec fn is_walk(g: Seq<Vec<usize>>, p: Seq<usize>) -> bool {
    &&& p.len() >= 1
    &&& forall|i: int| 0 <= i < p.len() - 1 ==> #[trigger] adjacent(g, p[i], p[i + 1])
}

/// `p` is a walk that starts at `s` and ends at `t`.
pub open spec fn walk_between(g: Seq<Vec<usize>>, p: Seq<usize>, s: usize, t: usize) -> bool {
    &&& is_walk(g, p)
    &&& p[0] == s
    &&& p.last() == t
}

pub open spec fn reachable(g: Seq<Vec<usize>>, s: usize, t: usize) -> bool {
    exists|p: Seq<usize>| #[trigger] walk_between(g, p, s, t)
}

/// `p` is a walk from `s` to `t` and no walk from `s` to `t` has fewer nodes.
pub open spec fn is_shortest_walk(g: Seq<Vec<usize>>, p: Seq<usize>, s: usize, t: usize) -> bool {
    &&& walk_between(g, p, s, t)
    &&& forall|q: Seq<usize>| #[trigger] walk_between(g, q, s, t) ==> p.len() <= q.len()
}

/// `k` is the number of edges of a shortest walk from `s` to `t`.
pub open spec fn is_distance(g: Seq<Vec<usize>>, s: usize, t: usize, k: nat) -> bool {
    &&& exists|p: Seq<usize>| #[trigger] walk_between(g, p, s, t) && p.len() == k + 1
    &&& forall|q: Seq<usize>| #[trigger] walk_between(g, q, s, t) ==> k + 1 <= q.len()
}

/// The parent and distance tables describe a tree of shortest walks rooted at
/// `start`: `usize::MAX` marks a node that was not reached, and the root.
pub open spec fn is_bfs_tree(
    g: Seq<Vec<usize>>,
    start: usize,
    parent: Seq<usize>,
    distance: Seq<usize>,
) -> bool {
    &&& parent.len() == g.len()
    &&& distance.len() == g.len()
    &&& start < g.len()
    &&& distance[start as int] == 0
    &&& parent[start as int] == usize::MAX
    &&& forall|v: int|
        0 <= v < g.len() && #[trigger] distance[v] == usize::MAX ==> parent[v] == usize::MAX
    &&& forall|v: int|
        0 <= v < g.len() && v != start && #[trigger] distance[v] != usize::MAX ==> {
            &&& parent[v] < g.len()
            &&& distance[parent[v] as int] != usize::MAX
            &&& distance[parent[v] as int] + 1 == distance[v]
            &&& adjacent(g, parent[v], v as usize)
        }
}

/// The position of the first node of `ends` that is reachable from `s`.
pub open spec fn is_first_reachable(g: Seq<Vec<usize>>, s: usize, ends: Seq<usize>, i: int) -> bool {
    &&& 0 <= i < ends.len()
    &&& reachable(g, s, ends[i])
    &&& forall|j: int| 0 <= j < i ==> !reachable(g, s, #[trigger] ends[j])
}

pub open spec fn first_reachable(g: Seq<Vec<usize>>, s: usize, ends: Seq<usize>) -> Option<int> {
    if exists|i: int| is_first_reachable(g, s, ends, i) {
        Some(choose|i: int| is_first_reachable(g, s, ends, i))
    } else {
        None
    }
}

/// `ends` with its element at `i` taken out and replaced by its last element.
pub open spec fn swap_removed(ends: Seq<usize>, i: int) -> Seq<usize> {
    ends.update(i, ends.last()).drop_last()
}

/// The (start, end) pairs that a one-to-one matching produces: each start in
/// turn takes the first end still in the pool that it can reach, which
/// leaves the pool; a start that reaches none is passed over.
pub open spec fn matching(g: Seq<Vec<usize>>, starts: Seq<usize>, ends: Seq<usize>) -> Seq<
    (usize, usize),
>
    decreases starts.len(),
{
    if starts.len() == 0 {
        Seq::empty()
    } else {
        match first_reachable(g, starts[0], ends) {
            Some(i) => seq![(starts[0], ends[i])] + matching(
                g,
                starts.drop_first(),
                swap_removed(ends, i),
            ),
            None => matching(g, starts.drop_first(), ends),
        }
    }
}

pub proof fn lemma_first_reachable_unique(g: Seq<Vec<usize>>, s: usize, ends: Seq<usize>, i: int)
    requires
        is_first_reachable(g, s, ends, i),
    ensures
        first_reachable(g, s, ends) == Some(i),
{
    let c = choose|k: int| is_first_reachable(g, s, ends, k);
    assert(is_first_reachable(g, s, ends, c));
    if c < i {
        assert(!reachable(g, s, ends[c]));
    } else if c > i {
        assert(!reachable(g, s, ends[i]));
    }
}

proof fn lemma_none_reachable(g: Seq<Vec<usize>>, s: usize, ends: Seq<usize>)
    requires
        forall|j: int| 0 <= j < ends.len() ==> !reachable(g, s, #[trigger] ends[j]),
    ensures
        first_reachable(g, s, ends) is None,
{
    if exists|i: int| is_first_reachable(g, s, ends, i) {
        let c = choose|i: int| is_first_reachable(g, s, ends, i);
        assert(!reachable(g, s, ends[c]));
    }
}

/// A sequence of distinct nodes below `n` has at most `n` elements.
proof fn lemma_distinct_bounded(q: Seq<usize>, n: usize)
    requires
        q.no_duplicates(),
        forall|i: int| 0 <= i < q.len() ==> #[trigger] q[i] < n,
    ensures
        q.len() <= n,
{
    let qi = q.map_values(|x: usize| x as int);
    assert(qi.no_duplicates()) by {
        assert forall|i: int, j: int| 0 <= i < qi.len() && 0 <= j < qi.len() && i != j implies qi[i]
            != qi[j] by {
            assert(q[i] != q[j]);
        }
    }
    qi.unique_seq_to_set();
    lemma_int_range(0, n as int);
    assert(qi.to_set().subset_of(set_int_range(0, n as int))) by {
        assert forall|x: int| qi.to_set().contains(x) implies set_int_range(0, n as int).contains(
            x,
        ) by {
            let i = choose|i: int| 0 <= i < qi.len() && qi[i] == x;
            assert(q[i] < n);
        }
    }
    lemma_len_subset(qi.to_set(), set_int_range(0, n as int));
}

/// Following parent pointers from a reached node gives a walk from the root
/// whose number of edges is the recorded distance.
proof fn lemma_parent_walk(
    g: Seq<Vec<usize>>,
    start: usize,
    parent: Seq<usize>,
    distance: Seq<usize>,
    v: usize,
) -> (p: Seq<usize>)
    requires
        is_bfs_tree(g, start, parent, distance),
        v < g.len(),
        distance[v as int] != usize::MAX,
    ensures
        walk_between(g, p, start, v),
        p.len() == distance[v as int] + 1,
    decreases distance[v as int],
{
    if v == start {
        let p = seq![v];
        assert(walk_between(g, p, start, v));
        p
    } else {
        let u = parent[v as int];
        let pu = lemma_parent_walk(g, start, parent, distance, u);
        let p = pu.push(v);
        assert forall|i: int| 0 <= i < p.len() - 1 implies #[trigger] adjacent(g, p[i], p[i + 1]) by {
            if i < pu.len() - 1 {
                assert(adjacent(g, pu[i], pu[i + 1]));
            }
        }
        p
    }
}

/// When every reached node has all its neighbours reached, one step further
/// at most, no walk from the root is shorter than a recorded distance.
proof fn lemma_walk_bounds_distance(
    g: Seq<Vec<usize>>,
    start: usize,
    distance: Seq<usize>,
    q: Seq<usize>,
)
    requires
        graph_wf(g),
        distance.len() == g.len(),
        start < g.len(),
        distance[start as int] == 0,
        forall|u: int, k: int|
            0 <= u < g.len() && distance[u] != usize::MAX && 0 <= k < g[u]@.len() ==> {
                &&& distance[#[trigger] g[u]@[k] as int] != usize::MAX
                &&& distance[g[u]@[k] as int] <= distance[u] + 1
            },
        is_walk(g, q),
        q[0] == start,
    ensures
        q.last() < g.len(),
        distance[q.last() as int] != usize::MAX,
        distance[q.last() as int] < q.len(),
    decreases q.len(),
{
    if q.len() > 1 {
        let r = q.drop_last();
        assert forall|i: int| 0 <= i < r.len() - 1 implies #[trigger] adjacent(g, r[i], r[i + 1]) by {
            assert(adjacent(g, q[i], q[i + 1]));
        }
        lemma_walk_bounds_distance(g, start, distance, r);
        let u = r.last();
        let i = q.len() - 2;
        assert(adjacent(g, q[i], q[i + 1]));
        let k = choose|k: int| 0 <= k < g[u as int]@.len() && g[u as int]@[k] == q.last();
        assert(g[u as int]@[k] == q.last());
    }
}

/// Breadth-first search over adjacency lists from `start`.
///
/// Returns the parent and distance tables: `distance[v]` is the number of
/// edges of a shortest walk from `start` to `v`, and `parent[v]` the node
/// before `v` on one such walk; both are `usize::MAX` where `v` cannot be
/// reached (and the parent of `start` is `usize::MAX`).
pub fn bfs(graph: &Vec<Vec<usize>>, start: usize) -> (r: (Vec<usize>, Vec<usize>))
    requires
        graph_wf(graph@),
        start < graph.len(),
    ensures
        is_bfs_tree(graph@, start, r.0@, r.1@),
        forall|v: int|
            0 <= v < graph.len() ==> (#[trigger] r.1@[v] != usize::MAX <==> reachable(
                graph@,
                start,
                v as usize,
            )),
        forall|v: int|
            0 <= v < graph.len() && #[trigger] r.1@[v] != usize::MAX ==> is_distance(
                graph@,
                start,
                v as usize,
                r.1@[v] as nat,
            ),
{
    let ghost g = graph@;
    let n = graph.len();
    let mut parent: Vec<usize> = Vec::new();
    let mut distance: Vec<usize> = Vec::new();
    let mut i: usize = 0;
    while i < n
        invariant
            i <= n,
            n == graph.len(),
            parent.len() == i,
            distance.len() == i,
            forall|v: int| 0 <= v < i ==> parent@[v] == usize::MAX && distance@[v] == usize::MAX,
        decreases n - i,
    {
        parent.push(usize::MAX);
        distance.push(usize::MAX);
        i = i + 1;
    }
    distance.set(start, 0);
    let mut queue: Vec<usize> = Vec::new();
    queue.push(start);
    assert forall|v: int|
        0 <= v < n && #[trigger] distance@[v] != usize::MAX implies queue@.contains(v as usize) by {
        assert(v == start);
        assert(queue@[0] == start);
    }
    let mut head: usize = 0;
    while head < queue.len()
        invariant
            g == graph@,
            n == graph.len(),
            graph_wf(g),
            start < n,
            head <= queue.len() <= n,
            queue@[0] == start,
            queue@.no_duplicates(),
            forall|i: int|
                0 <= i < queue.len() ==> #[trigger] queue@[i] < n && distance@[queue@[i] as int]
                    != usize::MAX && distance@[queue@[i] as int] <= i,
            forall|v: int|
                0 <= v < n && #[trigger] distance@[v] != usize::MAX ==> queue@.contains(v as usize),
            forall|i: int, j: int|
                0 <= i <= j < queue.len() ==> distance@[#[trigger] queue@[i] as int]
                    <= distance@[#[trigger] queue@[j] as int],
            head < queue.len() ==> forall|i: int|
                0 <= i < queue.len() ==> distance@[#[trigger] queue@[i] as int] <= distance@[queue@[head as int] as int]
                    + 1,
            forall|i: int, k: int|
                0 <= i < head && 0 <= k < g[queue@[i] as int]@.len() ==> {
                    &&& distance@[#[trigger] g[queue@[i] as int]@[k] as int] != usize::MAX
                    &&& distance@[g[queue@[i] as int]@[k] as int] <= distance@[queue@[i] as int] + 1
                },
            is_bfs_tree(g, start, parent@, distance@),
        decreases n - head,
    {
        let node = queue[head];
        head = head + 1;
        let ghost h = head as int;
        let d0 = distance[node];
        let nbrs = &graph[node];
        let mut j: usize = 0;
        while j < nbrs.len()
            invariant
                g == graph@,
                n == graph.len(),
                graph_wf(g),
                start < n,
                node < n,
                nbrs@ == g[node as int]@,
                0 < head <= queue.len() <= n,
                j <= nbrs.len(),
                queue@[head - 1] == node,
                distance@[node as int] == d0,
                d0 < head,
                queue@[0] == start,
                queue@.no_duplicates(),
                forall|i: int|
                    0 <= i < queue.len() ==> #[trigger] queue@[i] < n && distance@[queue@[i] as int]
                        != usize::MAX && distance@[queue@[i] as int] <= i,
                forall|v: int|
                    0 <= v < n && #[trigger] distance@[v] != usize::MAX ==> queue@.contains(
                        v as usize,
                    ),
                forall|i: int, j: int|
                    0 <= i <= j < queue.len() ==> distance@[#[trigger] queue@[i] as int]
                        <= distance@[#[trigger] queue@[j] as int],
                forall|i: int|
                    0 <= i < queue.len() ==> distance@[#[trigger] queue@[i] as int] <= d0 + 1,
                forall|i: int, k: int|
                    0 <= i < head - 1 && 0 <= k < g[queue@[i] as int]@.len() ==> {
                        &&& distance@[#[trigger] g[queue@[i] as int]@[k] as int] != usize::MAX
                        &&& distance@[g[queue@[i] as int]@[k] as int] <= distance@[queue@[i] as int]
                            + 1
                    },
                forall|k: int|
                    0 <= k < j ==> {
                        &&& distance@[#[trigger] nbrs@[k] as int] != usize::MAX
                        &&& distance@[nbrs@[k] as int] <= d0 + 1
                    },
                is_bfs_tree(g, start, parent@, distance@),
            decreases nbrs.len() - j,
        {
            let nb = nbrs[j];
            assert(nb < n) by {
                assert(g[node as int]@[j as int] < g.len());
            }
            if distance[nb] == usize::MAX {
                assert(!queue@.contains(nb)) by {
                    if queue@.contains(nb) {
                        let i = choose|i: int| 0 <= i < queue.len() && queue@[i] == nb;
                        assert(distance@[queue@[i] as int] != usize::MAX);
                    }
                }
                let ghost old_queue = queue@;
                let ghost old_distance = distance@;
                parent.set(nb, node);
                distance.set(nb, d0 + 1);
                queue.push(nb);
                proof {
                    assert(queue@.no_duplicates()) by {
                        assert forall|a: int, b: int|
                            0 <= a < queue.len() && 0 <= b < queue.len() && a != b implies queue@[a]
                            != queue@[b] by {
                            if a == queue.len() - 1 {
                                assert(old_queue.contains(queue@[b]));
                            } else if b == queue.len() - 1 {
                                assert(old_queue.contains(queue@[a]));
                            }
                        }
                    }
                    lemma_distinct_bounded(queue@, n);
                    assert forall|v: int|
                        0 <= v < n && #[trigger] distance@[v] != usize::MAX implies queue@.contains(
                        v as usize,
                    ) by {
                        if v != nb {
                            assert(old_distance[v] != usize::MAX);
                            let i = choose|i: int|
                                0 <= i < old_queue.len() && old_queue[i] == v as usize;
                            assert(queue@[i] == v as usize);
                        } else {
                            assert(queue@[queue.len() - 1] == nb);
                        }
                    }
                    assert forall|i: int|
                        0 <= i < queue.len() implies #[trigger] queue@[i] < n
                        && distance@[queue@[i] as int] != usize::MAX && distance@[queue@[i] as int]
                        <= i by {
                        if i < queue.len() - 1 {
                            assert(old_queue[i] == queue@[i]);
                            assert(old_queue[i] != nb);
                        }
                    }
                    assert forall|a: int, b: int|
                        0 <= a <= b < queue.len() implies distance@[#[trigger] queue@[a] as int]
                        <= distance@[#[trigger] queue@[b] as int] by {
                        if b == queue.len() - 1 && a < b {
                            assert(old_queue[a] == queue@[a]);
                            assert(old_queue[a] != nb);
                            assert(old_distance[old_queue[a] as int] <= d0 + 1);
                        } else if b < queue.len() - 1 {
                            assert(old_queue[a] != nb && old_queue[b] != nb);
                            assert(old_distance[old_queue[a] as int] <= old_distance[old_queue[b] as int]);
                        }
                    }
                    assert forall|i: int|
                        0 <= i < queue.len() implies distance@[#[trigger] queue@[i] as int] <= d0
                        + 1 by {
                        if i < queue.len() - 1 {
                            assert(old_queue[i] != nb);
                            assert(old_distance[old_queue[i] as int] <= d0 + 1);
                        }
                    }
                    assert(adjacent(g, node, nb)) by {
                        assert(nbrs@[j as int] == nb);
                    }
                    assert forall|v: int|
                        0 <= v < g.len() && v != start && #[trigger] distance@[v] != usize::MAX implies {
                        &&& parent@[v] < g.len()
                        &&& distance@[parent@[v] as int] != usize::MAX
                        &&& distance@[parent@[v] as int] + 1 == distance@[v]
                        &&& adjacent(g, parent@[v], v as usize)
                    } by {
                        if v != nb {
                            assert(old_distance[v] != usize::MAX);
                            assert(old_distance[parent@[v] as int] != usize::MAX);
                        }
                    }
                }
            }
            j = j + 1;
        }
        proof {
            assert forall|i: int, k: int|
                0 <= i < head && 0 <= k < g[queue@[i] as int]@.len() implies {
                &&& distance@[#[trigger] g[queue@[i] as int]@[k] as int] != usize::MAX
                &&& distance@[g[queue@[i] as int]@[k] as int] <= distance@[queue@[i] as int] + 1
            } by {
                if i == head - 1 {
                    assert(nbrs@[k] == g[queue@[i] as int]@[k]);
                }
            }
            if head < queue.len() {
                assert(distance@[queue@[head - 1] as int] <= distance@[queue@[head as int] as int]);
            }
        }
    }
    proof {
        assert forall|u: int, k: int|
            0 <= u < g.len() && distance@[u] != usize::MAX && 0 <= k < g[u]@.len() implies {
            &&& distance@[#[trigger] g[u]@[k] as int] != usize::MAX
            &&& distance@[g[u]@[k] as int] <= distance@[u] + 1
        } by {
            let i = choose|i: int| 0 <= i < queue.len() && queue@[i] == u as usize;
            assert(g[queue@[i] as int]@[k] == g[u]@[k]);
        }
        assert forall|v: int|
            0 <= v < graph.len() implies (#[trigger] distance@[v] != usize::MAX <==> reachable(
            graph@,
            start,
            v as usize,
        )) by {
            if distance@[v] != usize::MAX {
                let p = lemma_parent_walk(g, start, parent@, distance@, v as usize);
            }
            if reachable(g, start, v as usize) {
                let q = choose|q: Seq<usize>| #[trigger] walk_between(g, q, start, v as usize);
                lemma_walk_bounds_distance(g, start, distance@, q);
            }
        }
        assert forall|v: int|
            0 <= v < graph.len() && #[trigger] distance@[v] != usize::MAX implies is_distance(
            graph@,
            start,
            v as usize,
            distance@[v] as nat,
        ) by {
            let p = lemma_parent_walk(g, start, parent@, distance@, v as usize);
            assert(walk_between(g, p, start, v as usize) && p.len() == distance@[v] + 1);
            assert forall|q: Seq<usize>| #[trigger]
                walk_between(g, q, start, v as usize) implies distance@[v] + 1 <= q.len() by {
                lemma_walk_bounds_distance(g, start, distance@, q);
            }
        }
    }
    (parent, distance)
}

/// Finds a shortest walk from `start` to the first node of `ends` that it
/// reaches, and takes that node out of `ends` (its place is filled by the last
/// node of `ends`). Returns `None`, leaving `ends` as it was, when no node of
/// `ends` can be reached.
pub fn find_first_shortest_path(
    graph: &Vec<Vec<usize>>,
    start: usize,
    ends: &mut Vec<usize>,
) -> (r: Option<Vec<usize>>)
    requires
        graph_wf(graph@),
        start < graph.len(),
        forall|i: int| 0 <= i < old(ends).len() ==> #[trigger] old(ends)@[i] < graph.len(),
    ensures
        match first_reachable(graph@, start, old(ends)@) {
            None => r is None && final(ends)@ == old(ends)@,
            Some(i) => r is Some && is_shortest_walk(graph@, r->0@, start, old(ends)@[i])
                && final(ends)@ == swap_removed(old(ends)@, i),
        },
{
    let ghost g = graph@;
    let (parent, distance) = bfs(graph, start);
    let mut index: usize = 0;
    while index < ends.len()
        invariant
            g == graph@,
            graph_wf(g),
            start < graph.len(),
            ends@ == old(ends)@,
            index <= ends.len(),
            forall|i: int| 0 <= i < ends.len() ==> #[trigger] ends@[i] < graph.len(),
            is_bfs_tree(g, start, parent@, distance@),
            forall|v: int|
                0 <= v < graph.len() ==> (#[trigger] distance@[v] != usize::MAX <==> reachable(
                    g,
                    start,
                    v as usize,
                )),
            forall|v: int|
                0 <= v < graph.len() && #[trigger] distance@[v] != usize::MAX ==> is_distance(
                    g,
                    start,
                    v as usize,
                    distance@[v] as nat,
                ),
            forall|j: int| 0 <= j < index ==> !reachable(g, start, #[trigger] ends@[j]),
        decreases ends.len() - index,
    {
        let destination = ends[index];
        if distance[destination] < usize::MAX {
            let mut rev: Vec<usize> = Vec::new();
            rev.push(destination);
            let mut current = destination;
            while parent[current] != usize::MAX
                invariant
                    is_bfs_tree(g, start, parent@, distance@),
                    destination < g.len(),
                    current < g.len(),
                    distance@[current as int] != usize::MAX,
                    rev.len() >= 1,
                    rev@[0] == destination,
                    rev@.last() == current,
                    rev.len() + distance@[current as int] == distance@[destination as int] + 1,
                    forall|k: int| 0 <= k < rev.len() - 1 ==> #[trigger] adjacent(g, rev@[k + 1], rev@[k]),
                decreases distance@[current as int],
            {
                let ghost before = rev@;
                current = parent[current];
                rev.push(current);
                assert forall|k: int| 0 <= k < rev.len() - 1 implies #[trigger] adjacent(
                    g,
                    rev@[k + 1],
                    rev@[k],
                ) by {
                    if k < rev.len() - 2 {
                        assert(adjacent(g, before[k + 1], before[k]));
                    }
                }
            }
            assert(current == start);
            let mut path: Vec<usize> = Vec::new();
            let mut k: usize = rev.len();
            while k > 0
                invariant
                    k <= rev.len(),
                    path.len() + k == rev.len(),
                    forall|m: int| 0 <= m < path.len() ==> path@[m] == rev@[rev.len() - 1 - m],
                decreases k,
            {
                k = k - 1;
                path.push(rev[k]);
            }
            proof {
                assert forall|m: int| 0 <= m < path.len() - 1 implies #[trigger] adjacent(
                    g,
                    path@[m],
                    path@[m + 1],
                ) by {
                    let k = rev.len() - 2 - m;
                    assert(adjacent(g, rev@[k + 1], rev@[k]));
                }
                assert(walk_between(g, path@, start, destination));
                assert(is_distance(g, start, destination, distance@[destination as int] as nat));
                assert(is_first_reachable(g, start, old(ends)@, index as int));
                lemma_first_reachable_unique(g, start, old(ends)@, index as int);
            }
            ends.swap_remove(index);
            return Some(path);
        }
        index = index + 1;
    }
    proof {
        lemma_none_reachable(g, start, old(ends)@);
    }
    None
}

/// Matches each node of `starts`, in order, with a distinct node of `ends`
/// through shortest walks, as `matching` describes; one walk per match.
pub fn find_paths_between(
    starts: &Vec<usize>,
    ends: &Vec<usize>,
    graph: &Vec<Vec<usize>>,
) -> (paths: Vec<Vec<usize>>)
    requires
        graph_wf(graph@),
        forall|i: int| 0 <= i < starts.len() ==> #[trigger] starts@[i] < graph.len(),
        forall|i: int| 0 <= i < ends.len() ==> #[trigger] ends@[i] < graph.len(),
    ensures
        paths.len() == matching(graph@, starts@, ends@).len(),
        forall|i: int|
            0 <= i < paths.len() ==> is_shortest_walk(
                graph@,
                #[trigger] paths@[i]@,
                matching(graph@, starts@, ends@)[i].0,
                matching(graph@, starts@, ends@)[i].1,
            ),
{
    let ghost g = graph@;
    let mut paths: Vec<Vec<usize>> = Vec::new();
    let mut pool: Vec<usize> = ends.clone();
    let ghost mut done: Seq<(usize, usize)> = Seq::empty();
    let mut k: usize = 0;
    assert(pool@ == ends@);
    assert(starts@.skip(0) == starts@);
    assert(done + matching(g, starts@, ends@) == matching(g, starts@, ends@));
    while k < starts.len()
        invariant
            g == graph@,
            graph_wf(g),
            k <= starts.len(),
            forall|i: int| 0 <= i < starts.len() ==> #[trigger] starts@[i] < graph.len(),
            forall|i: int| 0 <= i < pool.len() ==> #[trigger] pool@[i] < graph.len(),
            matching(g, starts@, ends@) == done + matching(g, starts@.skip(k as int), pool@),
            paths.len() == done.len(),
            forall|i: int|
                0 <= i < paths.len() ==> is_shortest_walk(g, #[trigger] paths@[i]@, done[i].0, done[i].1),
        decreases starts.len() - k,
    {
        let start = starts[k];
        let ghost before = pool@;
        let ghost rest = starts@.skip(k as int);
        assert(rest[0] == start);
        assert(rest.drop_first() == starts@.skip(k + 1));
        let found = find_first_shortest_path(graph, start, &mut pool);
        match found {
            Some(path) => {
                proof {
                    let i = first_reachable(g, start, before)->0;
                    let pair = (start, before[i]);
                    assert(matching(g, rest, before) == seq![pair] + matching(g, starts@.skip(k + 1), pool@));
                    assert(done.push(pair) + matching(g, starts@.skip(k + 1), pool@) == done + (seq![pair]
                        + matching(g, starts@.skip(k + 1), pool@)));
                    done = done.push(pair);
                    assert forall|m: int| 0 <= m < pool.len() implies #[trigger] pool@[m] < graph.len() by {
                        if m == i {
                            assert(pool@[m] == before.last());
                        } else {
                            assert(pool@[m] == before[m]);
                        }
                    }
                }
                paths.push(path);
            },
            None => {
                assert(matching(g, rest, before) == matching(g, starts@.skip(k + 1), pool@));
            },
        }
        k = k + 1;
    }
    assert(starts@.skip(k as int).len() == 0);
    assert(done + Seq::<(usize, usize)>::empty() == done);
    paths
}

/// In an undirected graph a walk read backwards is a walk.
proof fn lemma_reversed_walk(g: Seq<Vec<usize>>, p: Seq<usize>, s: usize, t: usize)
    requires
        symmetric(g),
        walk_between(g, p, s, t),
    ensures
        walk_between(g, p.reverse(), t, s),
{
    let r = p.reverse();
    assert forall|i: int| 0 <= i < r.len() - 1 implies #[trigger] adjacent(g, r[i], r[i + 1]) by {
        let k = p.len() - 2 - i;
        assert(adjacent(g, p[k], p[k + 1]));
        assert(r[i] == p[k + 1] && r[i + 1] == p[k]);
    }
}

/// Shortest walks are symmetric in an undirected graph: when `p` is a
/// shortest walk from `a` to `b`, then `a` can be reached from `b`, and every
/// shortest walk from `b` back to `a` has as many nodes as `p`.
pub proof fn lemma_shortest_walk_symmetric(g: Seq<Vec<usize>>, a: usize, b: usize, p: Seq<usize>)
    requires
        symmetric(g),
        is_shortest_walk(g, p, a, b),
    ensures
        reachable(g, b, a),
        forall|q: Seq<usize>| #[trigger] is_shortest_walk(g, q, b, a) ==> q.len() == p.len(),
{
    lemma_reversed_walk(g, p, a, b);
    assert(walk_between(g, p.reverse(), b, a));
    assert forall|q: Seq<usize>| #[trigger] is_shortest_walk(g, q, b, a) implies q.len() == p.len() by {
        assert(walk_between(g, p.reverse(), b, a));
        lemma_reversed_walk(g, q, b, a);
        assert(walk_between(g, q.reverse(), a, b));
    }
}

/// Two adjacency lists with the same edges have the same walks, hence the
/// same reachability and the same matchings.
pub proof fn lemma_same_edges(g1: Seq<Vec<usize>>, g2: Seq<Vec<usize>>)
    requires
        forall|u: usize, v: usize| adjacent(g1, u, v) == adjacent(g2, u, v),
    ensures
        forall|p: Seq<usize>| #[trigger] is_walk(g1, p) == is_walk(g2, p),
        forall|s: usize, t: usize| #[trigger] reachable(g1, s, t) == reachable(g2, s, t),
        forall|p: Seq<usize>, s: usize, t: usize| #[trigger]
            is_shortest_walk(g1, p, s, t) == is_shortest_walk(g2, p, s, t),
        forall|starts: Seq<usize>, ends: Seq<usize>| #[trigger]
            matching(g1, starts, ends) == matching(g2, starts, ends),
{
    assert forall|p: Seq<usize>| #[trigger] is_walk(g1, p) == is_walk(g2, p) by {
        if is_walk(g1, p) {
            assert forall|i: int| 0 <= i < p.len() - 1 implies #[trigger] adjacent(g2, p[i], p[i + 1]) by {
                assert(adjacent(g1, p[i], p[i + 1]));
            }
        }
        if is_walk(g2, p) {
            assert forall|i: int| 0 <= i < p.len() - 1 implies #[trigger] adjacent(g1, p[i], p[i + 1]) by {
                assert(adjacent(g2, p[i], p[i + 1]));
            }
        }
    }
    assert forall|s: usize, t: usize| #[trigger] reachable(g1, s, t) == reachable(g2, s, t) by {
        if reachable(g1, s, t) {
            let p = choose|p: Seq<usize>| #[trigger] walk_between(g1, p, s, t);
            assert(walk_between(g2, p, s, t));
        }
        if reachable(g2, s, t) {
            let p = choose|p: Seq<usize>| #[trigger] walk_between(g2, p, s, t);
            assert(walk_between(g1, p, s, t));
        }
    }
    assert forall|p: Seq<usize>, s: usize, t: usize| #[trigger]
        is_shortest_walk(g1, p, s, t) == is_shortest_walk(g2, p, s, t) by {
        if is_shortest_walk(g1, p, s, t) {
            assert forall|q: Seq<usize>| #[trigger] walk_between(g2, q, s, t) implies p.len() <= q.len() by {
                assert(walk_between(g1, q, s, t));
            }
        }
        if is_shortest_walk(g2, p, s, t) {
            assert forall|q: Seq<usize>| #[trigger] walk_between(g1, q, s, t) implies p.len() <= q.len() by {
                assert(walk_between(g2, q, s, t));
            }
        }
    }
    assert forall|starts: Seq<usize>, ends: Seq<usize>| #[trigger]
        matching(g1, starts, ends) == matching(g2, starts, ends) by {
        lemma_same_matching(g1, g2, starts, ends);
    }
}

proof fn lemma_same_matching(g1: Seq<Vec<usize>>, g2: Seq<Vec<usize>>, starts: Seq<usize>, ends: Seq<usize>)
    requires
        forall|s: usize, t: usize| #[trigger] reachable(g1, s, t) == reachable(g2, s, t),
    ensures
        matching(g1, starts, ends) == matching(g2, starts, ends),
    decreases starts.len(),
{
    if starts.len() > 0 {
        let s = starts[0];
        assert(forall|i: int| is_first_reachable(g1, s, ends, i) == is_first_reachable(g2, s, ends, i));
        assert(first_reachable(g1, s, ends) == first_reachable(g2, s, ends));
        match first_reachable(g1, s, ends) {
            Some(i) => lemma_same_matching(g1, g2, starts.drop_first(), swap_removed(ends, i)),
            None => lemma_same_matching(g1, g2, starts.drop_first(), ends),
        }
    }
}

/// When no start can reach any end, the matching pairs nothing.
pub proof fn lemma_matching_none(g: Seq<Vec<usize>>, starts: Seq<usize>, ends: Seq<usize>)
    requires
        forall|i: int, j: int|
            0 <= i < starts.len() && 0 <= j < ends.len() ==> !reachable(g, starts[i], ends[j]),
    ensures
        matching(g, starts, ends).len() == 0,
    decreases starts.len(),
{
    if starts.len() > 0 {
        assert forall|j: int| 0 <= j < ends.len() implies !reachable(g, starts[0], #[trigger] ends[j]) by {}
        lemma_none_reachable(g, starts[0], ends);
        lemma_matching_none(g, starts.drop_first(), ends);
    }
}

} // verus!
