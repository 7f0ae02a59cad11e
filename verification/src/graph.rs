//! Directed graphs given by adjacency lists, and breadth-first distances.

use std::collections::VecDeque;
use vstd::prelude::*;
use vstd::set_lib::{lemma_int_range, lemma_len_subset, set_int_range};

verus! {

/// A directed graph on the nodes `0..n`: `successors(u)` lists the heads of
/// the edges leaving `u`, in the order in which they are visited.
pub struct Graph {
    adj: Vec<Vec<usize>>,
}

/// Every listed successor names a node of the graph.
pub open spec fn adjacency_wf(adj: Seq<Seq<usize>>) -> bool {
    forall|u: int, k: int|
        0 <= u < adj.len() && 0 <= k < adj[u].len() ==> (#[trigger] adj[u][k]) < adj.len()
}

/// `u -> v` is an edge of the graph given by `adj`.
pub open spec fn is_edge(adj: Seq<Seq<usize>>, u: usize, v: usize) -> bool {
    u < adj.len() && adj[u as int].contains(v)
}

/// The `i`-th step of `w` follows an edge.
pub open spec fn walk_step(adj: Seq<Seq<usize>>, w: Seq<usize>, i: int) -> bool {
    is_edge(adj, w[i], w[i + 1])
}

/// `w` lists the nodes of a walk along edges of `adj` from `from` to `to`;
/// the walk has `w.len() - 1` edges.
pub open spec fn is_walk(adj: Seq<Seq<usize>>, w: Seq<usize>, from: usize, to: usize) -> bool {
    &&& w.len() >= 1
    &&& w[0] == from
    &&& w[w.len() - 1] == to
    &&& forall|i: int| 0 <= i < w.len() - 1 ==> #[trigger] walk_step(adj, w, i)
}

/// `to` can be reached from `from` along at most `d` edges.
pub open spec fn reachable_within(adj: Seq<Seq<usize>>, from: usize, to: usize, d: nat) -> bool {
    exists|w: Seq<usize>| #[trigger] is_walk(adj, w, from, to) && w.len() <= d + 1
}

/// `to` can be reached from `from` at all.
pub open spec fn reachable(adj: Seq<Seq<usize>>, from: usize, to: usize) -> bool {
    exists|d: nat| #[trigger] reachable_within(adj, from, to, d)
}

/// `d` is the least number of edges on a walk from `from` to `to`.
pub open spec fn is_distance(adj: Seq<Seq<usize>>, from: usize, to: usize, d: nat) -> bool {
    &&& reachable_within(adj, from, to, d)
    &&& forall|e: nat| e < d ==> !#[trigger] reachable_within(adj, from, to, e)
}

/// What `shortest_distances_from` returns for each node: the hop distance
/// from `source`, or `None` for a node that cannot be reached.
pub open spec fn distances_spec(adj: Seq<Seq<usize>>, source: usize, dist: Seq<Option<usize>>) -> bool {
    &&& dist.len() == adj.len()
    &&& forall|v: int|
        0 <= v < dist.len() ==> match #[trigger] dist[v] {
            Some(d) => is_distance(adj, source, v as usize, d as nat),
            None => !reachable(adj, source, v as usize),
        }
}

/// Appending an edge to a walk gives a walk one edge longer.
pub proof fn lemma_walk_extend(adj: Seq<Seq<usize>>, w: Seq<usize>, from: usize, u: usize, v: usize)
    requires
        is_walk(adj, w, from, u),
        is_edge(adj, u, v),
    ensures
        is_walk(adj, w.push(v), from, v),
{
    let w2 = w.push(v);
    assert forall|i: int| 0 <= i < w2.len() - 1 implies #[trigger] walk_step(adj, w2, i) by {
        if i < w.len() - 1 {
            assert(walk_step(adj, w, i));
        }
    }
}

/// Dropping the last node of a walk with an edge gives a walk to its predecessor.
proof fn lemma_walk_pred(adj: Seq<Seq<usize>>, w: Seq<usize>, from: usize, to: usize)
    requires
        is_walk(adj, w, from, to),
        w.len() >= 2,
    ensures
        is_walk(adj, w.drop_last(), from, w[w.len() - 2]),
        is_edge(adj, w[w.len() - 2], to),
{
    let w2 = w.drop_last();
    assert(walk_step(adj, w, w.len() - 2));
    assert forall|i: int| 0 <= i < w2.len() - 1 implies #[trigger] walk_step(adj, w2, i) by {
        assert(walk_step(adj, w, i));
    }
}

/// A node reached within `d + 1` edges but not within `d` has a predecessor
/// reached within `d` edges.
proof fn lemma_predecessor(adj: Seq<Seq<usize>>, from: usize, v: usize, d: nat) -> (p: usize)
    requires
        reachable_within(adj, from, v, d + 1),
        !reachable_within(adj, from, v, d),
    ensures
        reachable_within(adj, from, p, d),
        is_edge(adj, p, v),
{
    let w = choose|w: Seq<usize>| #[trigger] is_walk(adj, w, from, v) && w.len() <= d + 2;
    if w.len() <= d + 1 {
        assert(reachable_within(adj, from, v, d));
    }
    lemma_walk_pred(adj, w, from, v);
    let p = w[w.len() - 2];
    assert(is_walk(adj, w.drop_last(), from, p));
    p
}

/// A set of nodes that holds `from` and is closed under edges holds every
/// node of every walk from `from`.
proof fn lemma_closed_walk(
    adj: Seq<Seq<usize>>,
    marked: Seq<Option<usize>>,
    w: Seq<usize>,
    from: usize,
    to: usize,
)
    requires
        adjacency_wf(adj),
        marked.len() == adj.len(),
        is_walk(adj, w, from, to),
        from < adj.len(),
        marked[from as int] is Some,
        forall|u: int, k: int|
            0 <= u < adj.len() && marked[u] is Some && 0 <= k < adj[u].len() ==> (#[trigger] marked[adj[u][k] as int]) is Some,
    ensures
        to < adj.len(),
        marked[to as int] is Some,
    decreases w.len(),
{
    if w.len() > 1 {
        lemma_walk_pred(adj, w, from, to);
        let p = w[w.len() - 2];
        lemma_closed_walk(adj, marked, w.drop_last(), from, p);
        let k = adj[p as int].index_of(to);
        assert(adj[p as int][k] == to);
        assert(marked[adj[p as int][k] as int] is Some);
    }
}

impl Graph {
    /// The adjacency lists of the graph.
    pub closed spec fn view(&self) -> Seq<Seq<usize>> {
        Seq::new(self.adj@.len(), |u: int| self.adj@[u]@)
    }

    #[verifier::type_invariant]
    spec fn inv(self) -> bool {
        adjacency_wf(self.view())
    }

    /// Builds the graph whose node `u` has the successors `adj[u]`; `None` when
    /// some successor is not a node of the graph.
    pub fn from_adjacency(adj: Vec<Vec<usize>>) -> (g: Option<Graph>)
        ensures
            g is Some <==> adjacency_wf(Seq::new(adj@.len(), |u: int| adj@[u]@)),
            g matches Some(g) ==> g.view() == Seq::new(adj@.len(), |u: int| adj@[u]@),
    {
        let n = adj.len();
        let ghost a = Seq::new(adj@.len(), |u: int| adj@[u]@);
        let mut u: usize = 0;
        while u < n
            invariant
                n == adj@.len(),
                a == Seq::new(adj@.len(), |u: int| adj@[u]@),
                u <= n,
                forall|x: int, k: int| 0 <= x < u && 0 <= k < a[x].len() ==> (#[trigger] a[x][k]) < n,
            decreases n - u,
        {
            let row = &adj[u];
            let m = row.len();
            let mut k: usize = 0;
            while k < m
                invariant
                    n == adj@.len(),
                    a == Seq::new(adj@.len(), |u: int| adj@[u]@),
                    u < n,
                    row@ == a[u as int],
                    m == row@.len(),
                    k <= m,
                    forall|j: int| 0 <= j < k ==> (#[trigger] a[u as int][j]) < n,
                decreases m - k,
            {
                if row[k] >= n {
                    assert(!adjacency_wf(a)) by {
                        assert(a[u as int][k as int] >= a.len());
                    }
                    return None;
                }
                k = k + 1;
            }
            u = u + 1;
        }
        let g = Graph { adj };
        assert(g.view() =~= a);
        Some(g)
    }

    /// The number of nodes. The adjacency lists name only nodes of the graph,
    /// and each of them fits in memory.
    pub fn node_count(&self) -> (n: usize)
        ensures
            n == self.view().len(),
            adjacency_wf(self.view()),
            forall|u: int| 0 <= u < self.view().len() ==> #[trigger] self.view()[u].len() <= usize::MAX,
    {
        proof {
            use_type_invariant(self);
            assert forall|u: int| 0 <= u < self.view().len() implies #[trigger] self.view()[u].len() <= usize::MAX by {
                assert(self.view()[u] == self.adj@[u]@);
                assert(self.adj@[u]@.len() == self.adj@[u].len());
            }
        }
        self.adj.len()
    }

    /// The successors of node `u`, in order.
    pub fn successors(&self, u: usize) -> (s: &Vec<usize>)
        requires
            u < self.view().len(),
        ensures
            s@ == self.view()[u as int],
            forall|k: int| 0 <= k < s@.len() ==> (#[trigger] s@[k]) < self.view().len(),
    {
        proof {
            use_type_invariant(self);
            assert forall|k: int| 0 <= k < self.adj@[u as int]@.len() implies (#[trigger] self.adj@[u as int]@[k]) < self.view().len() by {
                assert(self.view()[u as int][k] == self.adj@[u as int]@[k]);
            }
        }
        &self.adj[u]
    }
}

/// The value of a `Some` distance entry.
spec fn dval(dist: Seq<Option<usize>>, v: usize) -> nat {
    dist[v as int].unwrap() as nat
}

/// Computes, for every node, the least number of hops from `ip` along the
/// graph's edges, or `None` where the node cannot be reached, by a
/// breadth-first search.
pub fn shortest_distances_from(graph: &Graph, ip: usize) -> (dist: Vec<Option<usize>>)
    requires
        ip < graph.view().len(),
    ensures
        distances_spec(graph.view(), ip, dist@),
{
    proof {
        use_type_invariant(graph);
    }
    let ghost adj = graph.view();
    let n = graph.node_count();
    let mut dist: Vec<Option<usize>> = Vec::new();
    let mut i: usize = 0;
    while i < n
        invariant
            i <= n,
            dist@.len() == i,
            forall|j: int| 0 <= j < i ==> (#[trigger] dist@[j]) is None,
        decreases n - i,
    {
        dist.push(None);
        i = i + 1;
    }
    dist.set(ip, Some(0));
    let mut queue: VecDeque<usize> = VecDeque::with_capacity(n / 2);
    queue.push_back(ip);
    let ghost mut vis: Set<int> = Set::empty().insert(ip as int);
    let ghost mut level: nat = 0;
    proof {
        assert(is_walk(adj, seq![ip], ip, ip));
        assert(reachable_within(adj, ip, ip, 0));
        assert forall|v: usize| v < n && reachable_within(adj, ip, v, level) implies dist@[v as int] is Some by {
            let w = choose|w: Seq<usize>| #[trigger] is_walk(adj, w, ip, v) && w.len() <= 1;
            assert(v == ip);
        }
    }
    loop
        invariant
            adj == graph.view(),
            adjacency_wf(adj),
            n == adj.len(),
            ip < n,
            dist@.len() == n,
            vis.finite(),
            vis.len() <= n,
            forall|v: int| vis.contains(v) <==> (0 <= v < n && (#[trigger] dist@[v]) is Some),
            forall|v: int|
                0 <= v < n && (#[trigger] dist@[v]) is Some ==> is_distance(adj, ip, v as usize, dval(dist@, v as usize))
                    && dval(dist@, v as usize) < vis.len(),
            forall|i: int| 0 <= i < queue@.len() ==> (#[trigger] queue@[i]) < n && dist@[queue@[i] as int] is Some,
            forall|i: int, j: int| 0 <= i < j < queue@.len() ==> queue@[i] != queue@[j],
            forall|i: int, j: int|
                0 <= i < j < queue@.len() ==> dval(dist@, #[trigger] queue@[i]) <= dval(dist@, #[trigger] queue@[j]),
            forall|i: int|
                0 <= i < queue@.len() ==> level <= dval(dist@, #[trigger] queue@[i]) <= level + 1,
            forall|v: usize| v < n && #[trigger] reachable_within(adj, ip, v, level) ==> dist@[v as int] is Some,
            forall|u: int, k: int|
                0 <= u < n && dist@[u] is Some && !queue@.contains(u as usize) && 0 <= k < adj[u].len()
                    ==> (#[trigger] dist@[adj[u][k] as int]) is Some,
        ensures
            queue@.len() == 0,
        decreases n - vis.len(), queue@.len(),
    {
        if queue.len() == 0 {
            break;
        }
        proof {
            let f = queue@[0];
            if dval(dist@, f) == level + 1 {
                assert forall|v: usize| v < n && #[trigger] reachable_within(adj, ip, v, level + 1) implies dist@[v as int] is Some by {
                    if !reachable_within(adj, ip, v, level) {
                        let p = lemma_predecessor(adj, ip, v, level);
                        assert(dist@[p as int] is Some);
                        assert(is_distance(adj, ip, p, dval(dist@, p)));
                        if dval(dist@, p) > level {
                            assert(!reachable_within(adj, ip, p, level));
                        }
                        if queue@.contains(p) {
                            let qi = queue@.index_of(p);
                            if qi > 0 {
                                assert(dval(dist@, queue@[0]) <= dval(dist@, queue@[qi]));
                            }
                        }
                        let k = adj[p as int].index_of(v);
                        assert(dist@[adj[p as int][k] as int] is Some);
                    }
                }
                level = level + 1;
                assert forall|i: int| 0 <= i < queue@.len() implies level <= dval(dist@, #[trigger] queue@[i]) <= level + 1 by {
                    if i > 0 {
                        assert(dval(dist@, queue@[0]) <= dval(dist@, queue@[i]));
                    }
                }
            }
        }
        let ghost q0 = queue@;
        let u = match queue.pop_front() {
            Some(u) => u,
            None => {
                break;
            },
        };
        proof {
            assert(u == q0[0]);
            assert(queue@ == q0.subrange(1, q0.len() as int));
            assert(!queue@.contains(u)) by {
                if queue@.contains(u) {
                    let qi = queue@.index_of(u);
                    assert(q0[qi + 1] == q0[0]);
                }
            }
            if dval(dist@, u) > level {
                assert(level <= dval(dist@, q0[0]) <= level + 1);
            }
            assert forall|x: usize| q0.contains(x) && x != u implies queue@.contains(x) by {
                let qi = q0.index_of(x);
                assert(queue@[qi - 1] == x);
            }
        }
        let du = dist[u].unwrap();
        let ghost vis0 = vis;
        let ghost qlen0 = queue@.len();
        let succ = graph.successors(u);
        let m = succ.len();
        let mut k: usize = 0;
        while k < m
            invariant
                adj == graph.view(),
                adjacency_wf(adj),
                n == adj.len(),
                ip < n,
                u < n,
                succ@ == adj[u as int],
                m == succ@.len(),
                k <= m,
                dist@.len() == n,
                dist@[u as int] == Some(du),
                du == level,
                vis0.len() <= n,
                vis.len() == vis0.len() + (queue@.len() - qlen0),
                queue@.len() >= qlen0,
                qlen0 + 1 == q0.len(),
                !queue@.contains(u),
                vis.finite(),
                forall|v: int| vis.contains(v) <==> (0 <= v < n && (#[trigger] dist@[v]) is Some),
                forall|v: int|
                    0 <= v < n && (#[trigger] dist@[v]) is Some ==> is_distance(adj, ip, v as usize, dval(dist@, v as usize))
                        && dval(dist@, v as usize) < vis.len(),
                forall|i: int| 0 <= i < queue@.len() ==> (#[trigger] queue@[i]) < n && dist@[queue@[i] as int] is Some,
                forall|i: int, j: int| 0 <= i < j < queue@.len() ==> queue@[i] != queue@[j],
                forall|i: int, j: int|
                    0 <= i < j < queue@.len() ==> dval(dist@, #[trigger] queue@[i]) <= dval(dist@, #[trigger] queue@[j]),
                forall|i: int|
                    0 <= i < queue@.len() ==> level <= dval(dist@, #[trigger] queue@[i]) <= level + 1,
                forall|v: usize| v < n && #[trigger] reachable_within(adj, ip, v, level) ==> dist@[v as int] is Some,
                forall|x: int, j: int|
                    0 <= x < n && x != u && dist@[x] is Some && !queue@.contains(x as usize) && 0 <= j < adj[x].len()
                        ==> (#[trigger] dist@[adj[x][j] as int]) is Some,
                forall|j: int| 0 <= j < k ==> (#[trigger] dist@[adj[u as int][j] as int]) is Some,
            decreases m - k,
        {
            let v = succ[k];
            if dist[v].is_none() {
                proof {
                    lemma_int_range(0, n as int);
                    assert forall|x: int| vis.contains(x) implies set_int_range(0, n as int).contains(x) by {
                assert(vis.contains(x) == (0 <= x < n && dist@[x] is Some));
            }
                    assert(vis.subset_of(set_int_range(0, n as int)));
                    lemma_len_subset(vis, set_int_range(0, n as int));
                    assert(dval(dist@, u) < vis.len());
                }
                let ghost old_dist = dist@;
                let ghost old_queue = queue@;
                let ghost old_vis = vis;
                dist.set(v, Some(du + 1));
                queue.push_back(v);
                proof {
                    vis = vis.insert(v as int);
                    assert(is_distance(adj, ip, u, level));
                    let w = choose|w: Seq<usize>| #[trigger] is_walk(adj, w, ip, u) && w.len() <= level + 1;
                    assert(adj[u as int][k as int] == v);
                    assert(is_edge(adj, u, v));
                    lemma_walk_extend(adj, w, ip, u, v);
                    assert(is_walk(adj, w.push(v), ip, v));
                    assert(reachable_within(adj, ip, v, level + 1));
                    assert forall|e: nat| e < level + 1 implies !#[trigger] reachable_within(adj, ip, v, e) by {
                        if reachable_within(adj, ip, v, e) {
                            let w2 = choose|w2: Seq<usize>| #[trigger] is_walk(adj, w2, ip, v) && w2.len() <= e + 1;
                            assert(reachable_within(adj, ip, v, level));
                        }
                    }
                    assert(is_distance(adj, ip, v, (level + 1) as nat));
                    assert(!old_vis.contains(v as int));
                    assert forall|x: usize| x < n && #[trigger] reachable_within(adj, ip, x, level) implies dist@[x as int] is Some by {
                        assert(old_dist[x as int] is Some);
                    }
                    assert(!old_queue.contains(v)) by {
                        if old_queue.contains(v) {
                            let qi = old_queue.index_of(v);
                            assert(old_dist[old_queue[qi] as int] is Some);
                        }
                    }
                    assert forall|x: int| 0 <= x < n && (#[trigger] dist@[x]) is Some implies is_distance(adj, ip, x as usize, dval(dist@, x as usize))
                        && dval(dist@, x as usize) < vis.len() by {
                        if x != v {
                            assert(old_dist[x] is Some);
                        }
                    }
                    assert forall|i: int| 0 <= i < queue@.len() implies (#[trigger] queue@[i]) < n && dist@[queue@[i] as int] is Some by {
                        if i < old_queue.len() {
                            assert(queue@[i] == old_queue[i]);
                        }
                    }
                    assert forall|i: int, j: int|
                        0 <= i < j < queue@.len() implies dval(dist@, #[trigger] queue@[i]) <= dval(dist@, #[trigger] queue@[j]) by {
                        assert(queue@[i] == old_queue[i]);
                        if j < old_queue.len() {
                            assert(queue@[j] == old_queue[j]);
                        }
                        assert(old_queue[i] != v);
                    }
                    assert forall|i: int|
                        0 <= i < queue@.len() implies level <= dval(dist@, #[trigger] queue@[i]) <= level + 1 by {
                        if i < old_queue.len() {
                            assert(queue@[i] == old_queue[i]);
                            assert(old_queue[i] != v);
                        }
                    }
                    assert forall|x: int, j: int|
                        0 <= x < n && x != u && dist@[x] is Some && !queue@.contains(x as usize) && 0 <= j < adj[x].len()
                            implies (#[trigger] dist@[adj[x][j] as int]) is Some by {
                        if x != v {
                            assert(old_dist[x] is Some);
                            if old_queue.contains(x as usize) {
                                let qi = old_queue.index_of(x as usize);
                                assert(queue@[qi] == x);
                            }
                        } else {
                            assert(queue@[queue@.len() - 1] == v);
                        }
                    }
                }
            }
            k = k + 1;
        }
        proof {
            lemma_int_range(0, n as int);
            assert forall|x: int| vis.contains(x) implies set_int_range(0, n as int).contains(x) by {
                assert(vis.contains(x) == (0 <= x < n && dist@[x] is Some));
            }
            lemma_len_subset(vis, set_int_range(0, n as int));
        }
    }
    proof {
        assert(is_walk(adj, seq![ip], ip, ip));
        assert(reachable_within(adj, ip, ip, level));
        assert forall|u: int, k: int|
            0 <= u < adj.len() && dist@[u] is Some && 0 <= k < adj[u].len() implies (#[trigger] dist@[adj[u][k] as int]) is Some by {
            assert(!queue@.contains(u as usize));
        }
        assert forall|v: int| 0 <= v < dist@.len() implies match #[trigger] dist@[v] {
            Some(d) => is_distance(adj, ip, v as usize, d as nat),
            None => !reachable(adj, ip, v as usize),
        } by {
            if dist@[v] is None && reachable(adj, ip, v as usize) {
                let d = choose|d: nat| #[trigger] reachable_within(adj, ip, v as usize, d);
                let w = choose|w: Seq<usize>| #[trigger] is_walk(adj, w, ip, v as usize) && w.len() <= d + 1;
                lemma_closed_walk(adj, dist@, w, ip, v as usize);
            }
        }
    }
    dist
}

} // verus!
