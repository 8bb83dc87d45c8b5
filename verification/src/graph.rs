//! Directed graphs on the vertices `0..vs`, kept as adjacency lists.

pub mod sc;
pub mod topo;

use std::collections::VecDeque;
use vstd::prelude::*;

verus! {

/// A directed graph. Vertex `v` has an edge to each vertex in its adjacency
/// list, once for each time the vertex stands there.
pub struct Graph {
    vs: usize,
    adj: Vec<Vec<usize>>,
}

/// The adjacency lists of a list of vectors.
pub open spec fn lists_of(adj: Seq<Vec<usize>>) -> Seq<Seq<usize>> {
    adj.map_values(|l: Vec<usize>| l@)
}

impl View for Graph {
    type V = Seq<Seq<usize>>;

    closed spec fn view(&self) -> Seq<Seq<usize>> {
        lists_of(self.adj@)
    }
}

/// Whether every edge of `adj` leads to one of its vertices.
pub open spec fn closed_graph(adj: Seq<Seq<usize>>) -> bool {
    forall|v: int, k: int| 0 <= v < adj.len() && 0 <= k < adj[v].len() ==> adj[v][k] < adj.len()
}

/// How often `w` stands in `s`.
pub open spec fn occurrences(s: Seq<usize>, w: usize) -> nat
    decreases s.len(),
{
    if s.len() == 0 {
        0
    } else {
        occurrences(s.drop_last(), w) + if s.last() == w {
            1nat
        } else {
            0nat
        }
    }
}

/// The number of edges into `w` from the first `n` vertices.
pub open spec fn in_degree_upto(adj: Seq<Seq<usize>>, n: int, w: usize) -> nat
    decreases n,
{
    if n <= 0 {
        0
    } else {
        in_degree_upto(adj, n - 1, w) + occurrences(adj[n - 1], w)
    }
}

/// The number of edges into `w`.
pub open spec fn in_degree(adj: Seq<Seq<usize>>, w: usize) -> nat {
    in_degree_upto(adj, adj.len() as int, w)
}

/// `v`, `times` times over.
pub open spec fn repeat(v: usize, times: nat) -> Seq<usize> {
    Seq::new(times, |i: int| v)
}

/// The vertices among the first `n` with an edge to `w`, in ascending
/// order, each once for each such edge.
pub open spec fn sources_upto(adj: Seq<Seq<usize>>, n: int, w: usize) -> Seq<usize>
    decreases n,
{
    if n <= 0 {
        Seq::empty()
    } else {
        sources_upto(adj, n - 1, w) + repeat((n - 1) as usize, occurrences(adj[n - 1], w))
    }
}

/// The graph with every edge turned round.
pub open spec fn transposed(adj: Seq<Seq<usize>>) -> Seq<Seq<usize>> {
    Seq::new(adj.len(), |w: int| sources_upto(adj, adj.len() as int, w as usize))
}

/// A prefix of a list holds a vertex no more often than the list.
pub proof fn lemma_occurrences_prefix(s: Seq<usize>, k: int, w: usize)
    requires
        0 <= k <= s.len(),
    ensures
        occurrences(s.subrange(0, k), w) <= occurrences(s, w),
    decreases s.len(),
{
    if k == s.len() {
        assert(s.subrange(0, k) =~= s);
    } else {
        lemma_occurrences_prefix(s.drop_last(), k, w);
        assert(s.drop_last().subrange(0, k) =~= s.subrange(0, k));
    }
}

/// The edges from fewer vertices are no more than the edges from all.
pub proof fn lemma_in_degree_upto_mono(adj: Seq<Seq<usize>>, m: int, n: int, w: usize)
    requires
        m <= n,
    ensures
        in_degree_upto(adj, m, w) <= in_degree_upto(adj, n, w),
    decreases n - m,
{
    if m < n {
        lemma_in_degree_upto_mono(adj, m, n - 1, w);
    }
}

impl Graph {
    /// The number of vertices.
    pub closed spec fn vertices(&self) -> nat {
        self.vs as nat
    }

    /// There is one adjacency list for each vertex.
    pub closed spec fn wf(&self) -> bool {
        self.adj@.len() == self.vs
    }

    /// The view has one list for each vertex.
    pub proof fn lemma_view_len(&self)
        requires
            self.wf(),
        ensures
            self@.len() == self.vertices(),
    {
    }

    /// A graph with `vs` vertices and no edges.
    pub fn new(vs: usize) -> (g: Self)
        ensures
            g.wf(),
            g.vertices() == vs,
            g@ == Seq::new(vs as nat, |v: int| Seq::<usize>::empty()),
    {
        let mut adj: Vec<Vec<usize>> = Vec::new();
        let mut i: usize = 0;
        while i < vs
            invariant
                i <= vs,
                adj@.len() == i,
                forall|v: int| 0 <= v < i ==> (#[trigger] adj@[v])@ == Seq::<usize>::empty(),
            decreases vs - i,
        {
            adj.push(Vec::new());
            i += 1;
        }
        let g = Graph { vs, adj };
        assert(g@ =~= Seq::new(vs as nat, |v: int| Seq::<usize>::empty()));
        g
    }

    /// Adds an edge from `v` to `w`.
    pub fn add_edge(&mut self, v: usize, w: usize)
        requires
            old(self).wf(),
            v < old(self).vertices(),
        ensures
            final(self).wf(),
            final(self).vertices() == old(self).vertices(),
            final(self)@ == old(self)@.update(v as int, old(self)@[v as int].push(w)),
    {
        self.adj[v].push(w);
        assert(self@ =~= old(self)@.update(v as int, old(self)@[v as int].push(w)));
    }

    /// The number of vertices.
    pub fn len(&self) -> (n: usize)
        ensures
            n == self.vertices(),
    {
        self.vs
    }

    /// The adjacency list of `v`.
    pub fn edges(&self, v: usize) -> (l: &Vec<usize>)
        requires
            self.wf(),
            v < self.vertices(),
        ensures
            l@ == self@[v as int],
    {
        &self.adj[v]
    }

    /// Counts, for each vertex, the edges that lead to it.
    pub fn in_degs(&self) -> (degs: Vec<usize>)
        requires
            self.wf(),
            closed_graph(self@),
            forall|w: usize| w < self.vertices() ==> in_degree(self@, w) <= usize::MAX,
        ensures
            degs@.len() == self.vertices(),
            forall|w: usize| w < self.vertices() ==> degs@[w as int] == in_degree(self@, w),
    {
        let mut degs: Vec<usize> = Vec::new();
        let mut i: usize = 0;
        while i < self.vs
            invariant
                i <= self.vs,
                degs@.len() == i,
                forall|w: int| 0 <= w < i ==> degs@[w] == 0,
            decreases self.vs - i,
        {
            degs.push(0usize);
            i += 1;
        }
        let ghost adj = self@;
        let mut v: usize = 0;
        while v < self.vs
            invariant
                self.wf(),
                adj == self@,
                closed_graph(adj),
                forall|w: usize| w < self.vs ==> in_degree(adj, w) <= usize::MAX,
                v <= self.vs,
                degs@.len() == self.vs,
                forall|w: usize| w < self.vs ==> degs@[w as int] == in_degree_upto(adj, v as int, w),
            decreases self.vs - v,
        {
            let list = &self.adj[v];
            let mut k: usize = 0;
            while k < list.len()
                invariant
                    self.wf(),
                    adj == self@,
                    closed_graph(adj),
                    forall|w: usize| w < self.vs ==> in_degree(adj, w) <= usize::MAX,
                    v < self.vs,
                    list@ == adj[v as int],
                    k <= list@.len(),
                    degs@.len() == self.vs,
                    forall|w: usize|
                        w < self.vs ==> degs@[w as int] == in_degree_upto(adj, v as int, w)
                            + occurrences(list@.subrange(0, k as int), w),
                decreases list@.len() - k,
            {
                let w = list[k];
                proof {
                    assert(adj[v as int][k as int] < adj.len());
                    assert(list@.subrange(0, k + 1).drop_last() =~= list@.subrange(0, k as int));
                    lemma_occurrences_prefix(list@, k + 1, w);
                    lemma_in_degree_upto_mono(adj, v + 1, adj.len() as int, w);
                    assert(list@.subrange(0, k + 1).last() == w);
                    assert(occurrences(list@.subrange(0, k + 1), w) == occurrences(
                        list@.subrange(0, k as int),
                        w,
                    ) + 1);
                    assert(in_degree_upto(adj, v + 1, w) == in_degree_upto(adj, v as int, w)
                        + occurrences(list@, w));
                    assert(degs@[w as int] + 1 <= in_degree(adj, w));
                }
                degs[w] = degs[w] + 1;
                k += 1;
            }
            assert(list@.subrange(0, k as int) =~= list@);
            v += 1;
        }
        degs
    }

    /// The graph with every edge turned round. The adjacency list of a
    /// vertex holds the vertices that had an edge to it, in ascending order.
    pub fn transpose(&self) -> (g: Self)
        requires
            self.wf(),
            closed_graph(self@),
        ensures
            g.wf(),
            g.vertices() == self.vertices(),
            g@ == transposed(self@),
    {
        let mut g = Self::new(self.vs);
        let ghost adj = self@;
        let mut v: usize = 0;
        while v < self.vs
            invariant
                self.wf(),
                adj == self@,
                closed_graph(adj),
                v <= self.vs,
                g.wf(),
                g.vertices() == self.vs,
                g@.len() == self.vs,
                forall|w: int| 0 <= w < self.vs ==> g@[w] == sources_upto(adj, v as int, w as usize),
            decreases self.vs - v,
        {
            let list = &self.adj[v];
            let mut k: usize = 0;
            while k < list.len()
                invariant
                    self.wf(),
                    adj == self@,
                    closed_graph(adj),
                    v < self.vs,
                    list@ == adj[v as int],
                    k <= list@.len(),
                    g.wf(),
                    g.vertices() == self.vs,
                    g@.len() == self.vs,
                    forall|w: int|
                        0 <= w < self.vs ==> g@[w] == sources_upto(adj, v as int, w as usize)
                            + repeat(v, occurrences(list@.subrange(0, k as int), w as usize)),
                decreases list@.len() - k,
            {
                let w = list[k];
                assert(adj[v as int][k as int] < adj.len());
                let ghost before = g@;
                g.add_edge(w, v);
                proof {
                    assert(list@.subrange(0, k + 1).drop_last() =~= list@.subrange(0, k as int));
                    assert forall|x: int| 0 <= x < self.vs implies g@[x] == sources_upto(
                        adj,
                        v as int,
                        x as usize,
                    ) + repeat(v, occurrences(list@.subrange(0, k + 1), x as usize)) by {
                        let upto = sources_upto(adj, v as int, x as usize);
                        let had = occurrences(list@.subrange(0, k as int), x as usize);
                        if x == w {
                            assert(before[x].push(v) =~= upto + repeat(v, had + 1));
                        } else {
                            assert(g@[x] == before[x]);
                        }
                    }
                }
                k += 1;
            }
            assert(list@.subrange(0, k as int) =~= list@);
            v += 1;
        }
        assert(g@ =~= transposed(adj));
        g
    }
}

/// Whether the graph has an edge from `u` to `v`.
pub open spec fn edge(adj: Seq<Seq<usize>>, u: int, v: int) -> bool {
    0 <= u < adj.len() && exists|k: int| 0 <= k < adj[u].len() && #[trigger] adj[u][k] == v
}

/// Whether `p` is a walk along the edges of the graph.
pub open spec fn is_path(adj: Seq<Seq<usize>>, p: Seq<int>) -> bool {
    &&& p.len() >= 1
    &&& 0 <= p[0] < adj.len()
    &&& forall|i: int| 0 <= i < p.len() - 1 ==> edge(adj, #[trigger] p[i], p[i + 1])
}

/// Whether a walk leads from `u` to `v`. Every vertex reaches itself.
pub open spec fn reaches(adj: Seq<Seq<usize>>, u: int, v: int) -> bool {
    exists|p: Seq<int>| is_path(adj, p) && p[0] == u && p.last() == v
}

/// A vertex reaches itself.
pub proof fn lemma_reaches_self(adj: Seq<Seq<usize>>, u: int)
    requires
        0 <= u < adj.len(),
    ensures
        reaches(adj, u, u),
{
    let p = seq![u];
    assert(is_path(adj, p) && p[0] == u && p.last() == u);
}

/// A walk can be taken one edge further.
pub proof fn lemma_reaches_step(adj: Seq<Seq<usize>>, u: int, v: int, w: int)
    requires
        reaches(adj, u, v),
        edge(adj, v, w),
    ensures
        reaches(adj, u, w),
{
    let p = choose|p: Seq<int>| is_path(adj, p) && p[0] == u && p.last() == v;
    let q = p.push(w);
    assert forall|i: int| 0 <= i < q.len() - 1 implies edge(adj, #[trigger] q[i], q[i + 1]) by {
        if i < p.len() - 1 {
            assert(q[i] == p[i] && q[i + 1] == p[i + 1]);
        }
    }
    assert(is_path(adj, q) && q[0] == u && q.last() == w);
}

/// A walk can be entered one edge earlier.
pub proof fn lemma_reaches_first(adj: Seq<Seq<usize>>, u: int, v: int, w: int)
    requires
        edge(adj, u, v),
        reaches(adj, v, w),
    ensures
        reaches(adj, u, w),
{
    let p = choose|p: Seq<int>| is_path(adj, p) && p[0] == v && p.last() == w;
    let q = seq![u] + p;
    assert forall|i: int| 0 <= i < q.len() - 1 implies edge(adj, #[trigger] q[i], q[i + 1]) by {
        if i > 0 {
            assert(q[i] == p[i - 1] && q[i + 1] == p[i]);
        }
    }
    assert(is_path(adj, q) && q[0] == u && q.last() == w);
}

/// Two walks, the second starting where the first ends, make one.
pub proof fn lemma_reaches_trans(adj: Seq<Seq<usize>>, u: int, v: int, w: int)
    requires
        reaches(adj, u, v),
        reaches(adj, v, w),
    ensures
        reaches(adj, u, w),
{
    let q = choose|q: Seq<int>| is_path(adj, q) && q[0] == v && q.last() == w;
    lemma_reaches_along(adj, u, q, q.len() - 1);
}

/// From what reaches the start of a walk, every vertex on the walk is
/// reached.
pub proof fn lemma_reaches_along(adj: Seq<Seq<usize>>, u: int, q: Seq<int>, i: int)
    requires
        is_path(adj, q),
        reaches(adj, u, q[0]),
        0 <= i < q.len(),
    ensures
        reaches(adj, u, q[i]),
    decreases i,
{
    if i > 0 {
        lemma_reaches_along(adj, u, q, i - 1);
        assert(edge(adj, q[i - 1], q[i - 1 + 1]));
        lemma_reaches_step(adj, u, q[i - 1], q[i]);
    }
}

/// A set of vertices that holds `u` and, with each vertex, all that the
/// vertex has an edge to, holds everything that `u` reaches.
pub proof fn lemma_closed_holds_reachable(adj: Seq<Seq<usize>>, inside: Seq<bool>, u: int, v: int)
    requires
        closed_graph(adj),
        inside.len() == adj.len(),
        0 <= u < adj.len(),
        inside[u],
        forall|x: int, k: int|
            0 <= x < adj.len() && inside[x] && 0 <= k < adj[x].len() ==> inside[#[trigger] adj[x][k] as int],
        reaches(adj, u, v),
    ensures
        0 <= v < adj.len(),
        inside[v],
{
    let p = choose|p: Seq<int>| is_path(adj, p) && p[0] == u && p.last() == v;
    lemma_walk_stays_inside(adj, inside, p, p.len() - 1);
}

/// A walk that starts inside a closed set stays inside.
proof fn lemma_walk_stays_inside(adj: Seq<Seq<usize>>, inside: Seq<bool>, p: Seq<int>, i: int)
    requires
        closed_graph(adj),
        inside.len() == adj.len(),
        is_path(adj, p),
        inside[p[0]],
        forall|x: int, k: int|
            0 <= x < adj.len() && inside[x] && 0 <= k < adj[x].len() ==> inside[#[trigger] adj[x][k] as int],
        0 <= i < p.len(),
    ensures
        0 <= p[i] < adj.len(),
        inside[p[i]],
    decreases i,
{
    if i > 0 {
        lemma_walk_stays_inside(adj, inside, p, i - 1);
        assert(edge(adj, p[i - 1], p[i - 1 + 1]));
        let k = choose|k: int| 0 <= k < adj[p[i - 1]].len() && #[trigger] adj[p[i - 1]][k] == p[i];
        assert(inside[adj[p[i - 1]][k] as int]);
    }
}

/// The number of vertices not visited yet.
pub open spec fn unvisited(visited: Seq<bool>) -> nat
    decreases visited.len(),
{
    if visited.len() == 0 {
        0
    } else {
        unvisited(visited.drop_last()) + if visited.last() {
            0nat
        } else {
            1nat
        }
    }
}

/// Visiting more leaves fewer to visit.
pub proof fn lemma_unvisited_mono(a: Seq<bool>, b: Seq<bool>)
    requires
        a.len() == b.len(),
        forall|i: int| 0 <= i < a.len() && a[i] ==> b[i],
    ensures
        unvisited(b) <= unvisited(a),
    decreases a.len(),
{
    if a.len() > 0 {
        lemma_unvisited_mono(a.drop_last(), b.drop_last());
    }
}

/// Visiting one more vertex leaves one fewer to visit.
pub proof fn lemma_unvisited_mark(a: Seq<bool>, v: int)
    requires
        0 <= v < a.len(),
        !a[v],
    ensures
        unvisited(a.update(v, true)) + 1 == unvisited(a),
    decreases a.len(),
{
    let b = a.update(v, true);
    if v == a.len() - 1 {
        assert(b.drop_last() =~= a.drop_last());
    } else {
        lemma_unvisited_mark(a.drop_last(), v);
        assert(b.drop_last() =~= a.drop_last().update(v, true));
    }
}

/// Whether `order` names `u` at or after place `from`.
pub open spec fn names_from(order: Seq<usize>, from: int, u: int) -> bool {
    exists|k: int| from <= k < order.len() && #[trigger] order[k] == u
}

/// A list that was just given `v` names, from there on, `v` and nothing
/// else.
pub proof fn lemma_names_push(order: Seq<usize>, v: usize, u: int)
    ensures
        names_from(order.push(v), order.len() as int, u) <==> u == v,
{
    let pushed = order.push(v);
    if u == v {
        assert(pushed[order.len() as int] == u);
    }
}

/// What a longer list names from some place on is what the list named
/// before it grew, and what it names in the part it grew by.
pub proof fn lemma_names_extend(shorter: Seq<usize>, longer: Seq<usize>, from: int, u: int)
    requires
        0 <= from <= shorter.len() <= longer.len(),
        longer.subrange(0, shorter.len() as int) == shorter,
    ensures
        names_from(longer, from, u) <==> (names_from(shorter, from, u) || names_from(
            longer,
            shorter.len() as int,
            u,
        )),
{
    if names_from(longer, from, u) {
        let i = choose|i: int| from <= i < longer.len() && #[trigger] longer[i] == u;
        if i < shorter.len() {
            assert(longer.subrange(0, shorter.len() as int)[i] == longer[i]);
            assert(shorter[i] == u);
        } else {
            assert(longer[i] == u);
        }
    }
    if names_from(shorter, from, u) {
        let i = choose|i: int| from <= i < shorter.len() && #[trigger] shorter[i] == u;
        assert(longer.subrange(0, shorter.len() as int)[i] == longer[i]);
        assert(longer[i] == u);
    }
    if names_from(longer, shorter.len() as int, u) {
        let i = choose|i: int| shorter.len() <= i < longer.len() && #[trigger] longer[i] == u;
        assert(longer[i] == u);
    }
}

/// Whether every vertex that is visited in `now` but was not in `before`
/// has all the vertices it has an edge to visited in `now`.
pub open spec fn new_closed(adj: Seq<Seq<usize>>, before: Seq<bool>, now: Seq<bool>) -> bool {
    forall|x: int, k: int|
        0 <= x < adj.len() && now[x] && !before[x] && 0 <= k < adj[x].len() ==> now[#[trigger] adj[x][k] as int]
}

/// Walks the graph depth-first from `v`, skipping what `visited` marks,
/// marks what it comes to and appends it to `order`, each vertex when it is
/// first come to.
pub fn dfs_recur(g: &Graph, v: usize, visited: &mut [bool], order: &mut Vec<usize>)
    requires
        g.wf(),
        closed_graph(g@),
        old(visited)@.len() == g.vertices(),
        v < g.vertices(),
    ensures
        final(visited)@.len() == old(visited)@.len(),
        forall|u: int| 0 <= u < old(visited)@.len() && old(visited)@[u] ==> final(visited)@[u],
        final(visited)@[v as int],
        forall|k: int| 0 <= k < g@[v as int].len() ==> final(visited)@[#[trigger] g@[v as int][k] as int],
        forall|u: int|
            0 <= u < old(visited)@.len() && final(visited)@[u] && !old(visited)@[u] ==> reaches(
                g@,
                v as int,
                u,
            ),
        new_closed(g@, old(visited)@, final(visited)@),
        final(order)@.len() > old(order)@.len(),
        final(order)@.subrange(0, old(order)@.len() as int) == old(order)@,
        final(order)@[old(order)@.len() as int] == v,
        forall|u: int| #[trigger]
            names_from(final(order)@, old(order)@.len() as int, u) <==> (u == v || (0 <= u
                < old(visited)@.len() && final(visited)@[u] && !old(visited)@[u])),
    decreases 2 * unvisited(old(visited)@) + (if old(visited)@[v as int] { 1nat } else { 0nat }),
{
    let ghost adj = g@;
    let ghost before = visited@;
    let ghost order0 = order@;
    proof {
        g.lemma_view_len();
        if !before[v as int] {
            lemma_unvisited_mark(before, v as int);
        } else {
            assert(before.update(v as int, true) =~= before);
        }
        lemma_reaches_self(adj, v as int);
    }
    visited[v] = true;
    order.push(v);
    let ghost marked = visited@;
    proof {
        assert(marked =~= before.update(v as int, true));
        assert forall|u: int| #[trigger]
            names_from(order@, order0.len() as int, u) <==> (u == v || (0 <= u < adj.len()
                && visited@[u] && !before[u])) by {
            lemma_names_push(order0, v, u);
        }
        assert(order@.subrange(0, order0.len() as int) =~= order0);
    }
    let list = g.edges(v);
    let mut k: usize = 0;
    while k < list.len()
        invariant
            g.wf(),
            adj == g@,
            adj.len() == g.vertices(),
            closed_graph(adj),
            v < adj.len(),
            list@ == adj[v as int],
            k <= list@.len(),
            before == old(visited)@,
            order0 == old(order)@,
            before.len() == adj.len(),
            visited@.len() == adj.len(),
            marked == before.update(v as int, true),
            2 * unvisited(marked) < 2 * unvisited(before) + (if before[v as int] {
                1nat
            } else {
                0nat
            }),
            forall|u: int| 0 <= u < adj.len() && marked[u] ==> visited@[u],
            forall|j: int| 0 <= j < k ==> visited@[#[trigger] list@[j] as int],
            forall|u: int|
                0 <= u < adj.len() && visited@[u] && !before[u] ==> reaches(adj, v as int, u),
            forall|x: int, j: int|
                0 <= x < adj.len() && x != v && visited@[x] && !before[x] && 0 <= j < adj[x].len()
                    ==> visited@[#[trigger] adj[x][j] as int],
            order@.len() > order0.len(),
            order@.subrange(0, order0.len() as int) == order0,
            order@[order0.len() as int] == v,
            forall|u: int| #[trigger]
                names_from(order@, order0.len() as int, u) <==> (u == v || (0 <= u < adj.len()
                    && visited@[u] && !before[u])),
        decreases list@.len() - k,
    {
        let w = list[k];
        assert(adj[v as int][k as int] < adj.len());
        if !visited[w] {
            let ghost vis1 = visited@;
            let ghost ord1 = order@;
            proof {
                lemma_unvisited_mono(marked, vis1);
            }
            dfs_recur(g, w, visited, order);
            proof {
                let vis2 = visited@;
                let ord2 = order@;
                assert(edge(adj, v as int, w as int));
                assert forall|u: int|
                    0 <= u < adj.len() && vis2[u] && !before[u] implies reaches(
                    adj,
                    v as int,
                    u,
                ) by {
                    if !vis1[u] {
                        lemma_reaches_first(adj, v as int, w as int, u);
                    }
                }
                assert forall|x: int, j: int|
                    0 <= x < adj.len() && x != v && vis2[x] && !before[x] && 0 <= j
                        < adj[x].len() implies vis2[#[trigger] adj[x][j] as int] by {
                    if vis1[x] {
                        assert(vis1[adj[x][j] as int]);
                    }
                }
                assert(ord2.subrange(0, order0.len() as int) =~= order0) by {
                    assert forall|i: int| 0 <= i < order0.len() implies ord2[i] == order0[i] by {
                        assert(ord2.subrange(0, ord1.len() as int)[i] == ord1[i]);
                        assert(ord1.subrange(0, order0.len() as int)[i] == order0[i]);
                    }
                }
                assert(ord2[order0.len() as int] == v) by {
                    assert(ord2.subrange(0, ord1.len() as int)[order0.len() as int]
                        == ord1[order0.len() as int]);
                }
                assert forall|u: int| #[trigger]
                    names_from(ord2, order0.len() as int, u) <==> (u == v || (0 <= u < adj.len()
                        && vis2[u] && !before[u])) by {
                    lemma_names_extend(ord1, ord2, order0.len() as int, u);
                    assert(names_from(ord1, order0.len() as int, u) <==> (u == v || (0 <= u
                        < adj.len() && vis1[u] && !before[u])));
                    assert(names_from(ord2, ord1.len() as int, u) <==> (u == w || (0 <= u
                        < adj.len() && vis2[u] && !vis1[u])));
                    if 0 <= u < adj.len() && vis1[u] {
                        assert(vis2[u]);
                    }
                    if 0 <= u < adj.len() && before[u] {
                        assert(marked[u]);
                        assert(vis1[u]);
                    }
                    assert(vis2[w as int] && !vis1[w as int]);
                }
            }
        }
        k += 1;
    }
    proof {
        assert forall|x: int, j: int|
            0 <= x < adj.len() && visited@[x] && !before[x] && 0 <= j
                < adj[x].len() implies visited@[#[trigger] adj[x][j] as int] by {
            if x == v {
                assert(visited@[list@[j] as int]);
            }
        }
        assert forall|u: int| 0 <= u < before.len() && before[u] implies visited@[u] by {
            assert(marked[u]);
        }
        assert(marked[v as int]);
    }
}

/// Lists what `v` reaches, in the order in which a depth-first walk from
/// `v` first comes to it.
pub fn dfs(g: &Graph, v: usize) -> (order: Vec<usize>)
    requires
        g.wf(),
        closed_graph(g@),
        v < g.vertices(),
    ensures
        order@.len() >= 1,
        order@[0] == v,
        forall|u: int| #[trigger] names_from(order@, 0, u) <==> reaches(g@, v as int, u),
{
    let mut visited = falses(g.len());
    let mut order: Vec<usize> = Vec::new();
    let ghost before = visited@;
    dfs_recur(g, v, visited.as_mut_slice(), &mut order);
    proof {
        g.lemma_view_len();
        let adj = g@;
        assert(new_closed(adj, before, visited@));
        assert forall|x: int, k: int|
            0 <= x < adj.len() && visited@[x] && 0 <= k < adj[x].len() implies visited@[#[trigger] adj[x][k] as int] by {
            assert(!before[x]);
        }
        lemma_reaches_self(adj, v as int);
        assert forall|u: int| #[trigger] names_from(order@, 0, u) <==> reaches(adj, v as int, u) by {
            assert(names_from(order@, 0, u) <==> (u == v || (0 <= u < adj.len() && visited@[u]
                && !before[u])));
            if reaches(adj, v as int, u) {
                lemma_closed_holds_reachable(adj, visited@, v as int, u);
                assert(!before[u]);
            }
            if 0 <= u < adj.len() && visited@[u] {
                assert(!before[u]);
                assert(reaches(adj, v as int, u));
            }
        }
    }
    order
}

/// A list of `n` times `false`.
pub fn falses(n: usize) -> (v: Vec<bool>)
    ensures
        v@.len() == n,
        forall|i: int| 0 <= i < n ==> !v@[i],
{
    let mut v: Vec<bool> = Vec::new();
    let mut i: usize = 0;
    while i < n
        invariant
            i <= n,
            v@.len() == i,
            forall|j: int| 0 <= j < i ==> !v@[j],
        decreases n - i,
    {
        v.push(false);
        i += 1;
    }
    v
}

/// Marks what `v` reaches.
pub fn mark_reachable(g: &Graph, v: usize) -> (visited: Vec<bool>)
    requires
        g.wf(),
        closed_graph(g@),
        v < g.vertices(),
    ensures
        visited@.len() == g.vertices(),
        forall|u: int| 0 <= u < visited@.len() ==> visited@[u] == reaches(g@, v as int, u),
{
    let mut visited = falses(g.len());
    let mut order: Vec<usize> = Vec::new();
    let ghost before = visited@;
    dfs_recur(g, v, visited.as_mut_slice(), &mut order);
    proof {
        g.lemma_view_len();
        let adj = g@;
        assert forall|x: int, k: int|
            0 <= x < adj.len() && visited@[x] && 0 <= k < adj[x].len() implies visited@[#[trigger] adj[x][k] as int] by {
            assert(!before[x]);
        }
        assert forall|u: int| 0 <= u < visited@.len() implies visited@[u] == reaches(
            adj,
            v as int,
            u,
        ) by {
            assert(!before[u]);
            if reaches(adj, v as int, u) {
                lemma_closed_holds_reachable(adj, visited@, v as int, u);
            }
        }
    }
    visited
}

/// Tells whether every entry of `v` is `true`.
pub fn all_true(v: &Vec<bool>) -> (r: bool)
    ensures
        r == forall|i: int| 0 <= i < v@.len() ==> v@[i],
{
    let mut i: usize = 0;
    while i < v.len()
        invariant
            i <= v@.len(),
            forall|j: int| 0 <= j < i ==> v@[j],
        decreases v@.len() - i,
    {
        if !v[i] {
            return false;
        }
        i += 1;
    }
    true
}

/// A list holds a vertex at some place exactly when it holds it at least
/// once.
pub proof fn lemma_occurrences_positive(s: Seq<usize>, w: usize)
    ensures
        occurrences(s, w) > 0 <==> exists|k: int| 0 <= k < s.len() && #[trigger] s[k] == w,
    decreases s.len(),
{
    if s.len() > 0 {
        lemma_occurrences_positive(s.drop_last(), w);
        if exists|k: int| 0 <= k < s.len() && #[trigger] s[k] == w {
            let k = choose|k: int| 0 <= k < s.len() && #[trigger] s[k] == w;
            if k < s.len() - 1 {
                assert(s.drop_last()[k] == w);
            }
        }
        if occurrences(s.drop_last(), w) > 0 {
            let k = choose|k: int| 0 <= k < s.drop_last().len() && #[trigger] s.drop_last()[k] == w;
            assert(s[k] == w);
        }
        if s.last() == w {
            assert(s[s.len() - 1] == w);
        }
    }
}

/// The sources of `w` among the first `n` vertices are the vertices below
/// `n` with an edge to `w`.
pub proof fn lemma_sources(adj: Seq<Seq<usize>>, n: int, w: usize, v: int)
    requires
        0 <= n <= adj.len() <= usize::MAX,
    ensures
        (exists|k: int| 0 <= k < sources_upto(adj, n, w).len() && #[trigger] sources_upto(adj, n, w)[k] == v)
            <==> (0 <= v < n && occurrences(adj[v], w) > 0),
    decreases n,
{
    if n > 0 {
        lemma_sources(adj, n - 1, w, v);
        let before = sources_upto(adj, n - 1, w);
        let add = repeat((n - 1) as usize, occurrences(adj[n - 1], w));
        let all = sources_upto(adj, n, w);
        assert(all == before + add);
        if exists|k: int| 0 <= k < all.len() && #[trigger] all[k] == v {
            let k = choose|k: int| 0 <= k < all.len() && #[trigger] all[k] == v;
            if k < before.len() {
                assert(before[k] == v);
            } else {
                assert(add[k - before.len()] == v);
            }
        }
        if 0 <= v < n && occurrences(adj[v], w) > 0 {
            if v < n - 1 {
                let k = choose|k: int| 0 <= k < before.len() && #[trigger] before[k] == v;
                assert(all[k] == v);
            } else {
                assert(add[0] == v);
                assert(all[before.len() as int] == v);
            }
        }
    }
}

/// The turned graph has an edge where the graph has one the other way.
pub proof fn lemma_transposed_edge(adj: Seq<Seq<usize>>, u: int, v: int)
    requires
        adj.len() <= usize::MAX,
        0 <= u < adj.len(),
        0 <= v < adj.len(),
    ensures
        edge(transposed(adj), u, v) <==> edge(adj, v, u),
{
    let t = transposed(adj);
    lemma_sources(adj, adj.len() as int, u as usize, v);
    lemma_occurrences_positive(adj[v], u as usize);
    assert(t[u] == sources_upto(adj, adj.len() as int, u as usize));
    if edge(t, u, v) {
        let k = choose|k: int| 0 <= k < t[u].len() && #[trigger] t[u][k] == v;
        assert(sources_upto(adj, adj.len() as int, u as usize)[k] == v);
        let j = choose|j: int| 0 <= j < adj[v].len() && #[trigger] adj[v][j] == u as usize;
        assert(adj[v][j] == u);
    }
    if edge(adj, v, u) {
        let j = choose|j: int| 0 <= j < adj[v].len() && #[trigger] adj[v][j] == u;
        assert(adj[v][j] == u as usize);
        let k = choose|k: int|
            0 <= k < sources_upto(adj, adj.len() as int, u as usize).len() && #[trigger] sources_upto(
                adj,
                adj.len() as int,
                u as usize,
            )[k] == v;
        assert(t[u][k] == v);
    }
}

/// Every edge of the turned graph leads to one of its vertices.
pub proof fn lemma_transposed_closed(adj: Seq<Seq<usize>>)
    requires
        adj.len() <= usize::MAX,
    ensures
        transposed(adj).len() == adj.len(),
        closed_graph(transposed(adj)),
{
    let t = transposed(adj);
    assert forall|v: int, k: int| 0 <= v < t.len() && 0 <= k < t[v].len() implies t[v][k]
        < t.len() by {
        let x = t[v][k] as int;
        assert(sources_upto(adj, adj.len() as int, v as usize)[k] == x);
        lemma_sources(adj, adj.len() as int, v as usize, x);
    }
}

/// Every vertex on a walk is a vertex of the graph.
pub proof fn lemma_path_in_range(adj: Seq<Seq<usize>>, p: Seq<int>, i: int)
    requires
        closed_graph(adj),
        is_path(adj, p),
        0 <= i < p.len(),
    ensures
        0 <= p[i] < adj.len(),
    decreases i,
{
    if i > 0 {
        lemma_path_in_range(adj, p, i - 1);
        assert(edge(adj, p[i - 1], p[i - 1 + 1]));
        let k = choose|k: int| 0 <= k < adj[p[i - 1]].len() && #[trigger] adj[p[i - 1]][k] == p[i];
        assert(adj[p[i - 1]][k] < adj.len());
    }
}

/// A walk in the graph, taken backwards, is a walk in the turned graph.
pub proof fn lemma_transposed_reaches(adj: Seq<Seq<usize>>, u: int, v: int)
    requires
        adj.len() <= usize::MAX,
        closed_graph(adj),
        reaches(adj, u, v),
    ensures
        reaches(transposed(adj), v, u),
{
    let p = choose|p: Seq<int>| is_path(adj, p) && p[0] == u && p.last() == v;
    let q = p.reverse();
    let t = transposed(adj);
    lemma_path_in_range(adj, p, p.len() - 1);
    assert forall|i: int| 0 <= i < q.len() - 1 implies edge(t, #[trigger] q[i], q[i + 1]) by {
        let j = p.len() - 2 - i;
        assert(q[i] == p[j + 1] && q[i + 1] == p[j]);
        assert(edge(adj, p[j], p[j + 1]));
        lemma_path_in_range(adj, p, j);
        lemma_path_in_range(adj, p, j + 1);
        lemma_transposed_edge(adj, p[j + 1], p[j]);
    }
    assert(is_path(t, q) && q[0] == v && q.last() == u);
}

/// A walk in the turned graph, taken backwards, is a walk in the graph.
pub proof fn lemma_transposed_reaches_back(adj: Seq<Seq<usize>>, u: int, v: int)
    requires
        adj.len() <= usize::MAX,
        closed_graph(adj),
        reaches(transposed(adj), v, u),
    ensures
        reaches(adj, u, v),
{
    let t = transposed(adj);
    lemma_transposed_closed(adj);
    let p = choose|p: Seq<int>| is_path(t, p) && p[0] == v && p.last() == u;
    let q = p.reverse();
    lemma_path_in_range(t, p, p.len() - 1);
    assert forall|i: int| 0 <= i < q.len() - 1 implies edge(adj, #[trigger] q[i], q[i + 1]) by {
        let j = p.len() - 2 - i;
        assert(q[i] == p[j + 1] && q[i + 1] == p[j]);
        assert(edge(t, p[j], p[j + 1]));
        lemma_path_in_range(t, p, j);
        lemma_path_in_range(t, p, j + 1);
        lemma_transposed_edge(adj, p[j], p[j + 1]);
    }
    assert(is_path(adj, q) && q[0] == u && q.last() == v);
}

/// How many visits one entry of `x` in the queue can lead to at most,
/// counting the visit of `x` and the visits of what it puts into the queue
/// in turn, when `visited` tells what was visited so far.
pub open spec fn weight(adj: Seq<Seq<usize>>, visited: Seq<bool>, x: int) -> nat
    decreases unvisited(visited.update(x, true)), 1nat, 0nat,
{
    1 + weight_sum(adj, visited.update(x, true), adj[x], adj[x].len())
}

/// The weights of those of the first `k` vertices of `list` that are not
/// visited.
pub open spec fn weight_sum(adj: Seq<Seq<usize>>, visited: Seq<bool>, list: Seq<usize>, k: nat) -> nat
    decreases unvisited(visited), 0nat, k,
{
    if k == 0 {
        0
    } else {
        let w = list[k - 1] as int;
        weight_sum(adj, visited, list, (k - 1) as nat) + if 0 <= w < visited.len() && !visited[w] {
            proof {
                lemma_unvisited_mark(visited, w);
            }
            weight(adj, visited, w)
        } else {
            0nat
        }
    }
}

/// The weights of the entries of the queue.
pub open spec fn queue_weight(adj: Seq<Seq<usize>>, visited: Seq<bool>, q: Seq<usize>) -> nat
    decreases q.len(),
{
    if q.len() == 0 {
        0
    } else {
        queue_weight(adj, visited, q.drop_last()) + weight(adj, visited, q.last() as int)
    }
}

/// The more is visited, the less an entry of the queue weighs.
pub proof fn lemma_weight_mono(adj: Seq<Seq<usize>>, a: Seq<bool>, b: Seq<bool>, x: int)
    requires
        0 <= x < a.len(),
        a.len() == b.len(),
        forall|i: int| 0 <= i < a.len() && a[i] ==> b[i],
    ensures
        weight(adj, b, x) <= weight(adj, a, x),
    decreases unvisited(a.update(x, true)), 1nat, 0nat,
{
    lemma_weight_sum_mono(adj, a.update(x, true), b.update(x, true), adj[x], adj[x].len());
}

/// The more is visited, the less the unvisited of a list weigh.
pub proof fn lemma_weight_sum_mono(adj: Seq<Seq<usize>>, a: Seq<bool>, b: Seq<bool>, list: Seq<usize>, k: nat)
    requires
        a.len() == b.len(),
        forall|i: int| 0 <= i < a.len() && a[i] ==> b[i],
    ensures
        weight_sum(adj, b, list, k) <= weight_sum(adj, a, list, k),
    decreases unvisited(a), 0nat, k,
{
    if k > 0 {
        lemma_weight_sum_mono(adj, a, b, list, (k - 1) as nat);
        let w = list[k - 1] as int;
        if 0 <= w < a.len() && !a[w] {
            lemma_unvisited_mark(a, w);
            lemma_weight_mono(adj, a, b, w);
        }
    }
}

/// The more is visited, the less the queue weighs.
pub proof fn lemma_queue_weight_mono(adj: Seq<Seq<usize>>, a: Seq<bool>, b: Seq<bool>, q: Seq<usize>)
    requires
        forall|j: int| 0 <= j < q.len() ==> #[trigger] q[j] < a.len(),
        a.len() == b.len(),
        forall|i: int| 0 <= i < a.len() && a[i] ==> b[i],
    ensures
        queue_weight(adj, b, q) <= queue_weight(adj, a, q),
    decreases q.len(),
{
    if q.len() > 0 {
        assert forall|j: int| 0 <= j < q.drop_last().len() implies #[trigger] q.drop_last()[j]
            < a.len() by {
            assert(q.drop_last()[j] == q[j]);
        }
        lemma_queue_weight_mono(adj, a, b, q.drop_last());
        assert(q[q.len() - 1] < a.len());
        lemma_weight_mono(adj, a, b, q.last() as int);
    }
}

/// The queue weighs what its first entry and the rest weigh.
pub proof fn lemma_queue_weight_pop(adj: Seq<Seq<usize>>, visited: Seq<bool>, q: Seq<usize>)
    requires
        q.len() > 0,
    ensures
        queue_weight(adj, visited, q) == weight(adj, visited, q[0] as int) + queue_weight(
            adj,
            visited,
            q.subrange(1, q.len() as int),
        ),
    decreases q.len(),
{
    let rest = q.subrange(1, q.len() as int);
    if q.len() == 1 {
        assert(q.drop_last() =~= Seq::<usize>::empty());
        assert(rest =~= Seq::<usize>::empty());
    } else {
        lemma_queue_weight_pop(adj, visited, q.drop_last());
        assert(q.drop_last().subrange(1, q.len() - 1) =~= rest.drop_last());
        assert(rest.last() == q.last());
        assert(q.drop_last()[0] == q[0]);
    }
}

/// Lists what `v` reaches, in the order in which a breadth-first walk
/// from `v` visits it. A vertex is visited once for each time it was put
/// into the queue before its first visit, so it may stand in the list
/// more than once.
pub fn bfs(g: &Graph, v: usize) -> (order: Vec<usize>)
    requires
        g.wf(),
        closed_graph(g@),
        v < g.vertices(),
    ensures
        order@.len() >= 1,
        order@[0] == v,
        forall|u: int| #[trigger] names_from(order@, 0, u) <==> reaches(g@, v as int, u),
{
    let ghost adj = g@;
    proof {
        g.lemma_view_len();
        lemma_reaches_self(adj, v as int);
    }
    let n = g.len();
    let mut visited = falses(n);
    let mut q: VecDeque<usize> = VecDeque::new();
    q.push_back(v);
    let mut order: Vec<usize> = Vec::new();
    proof {
        assert(q@[0] == v);
    }
    while q.len() > 0
        invariant
            g.wf(),
            adj == g@,
            adj.len() == n,
            closed_graph(adj),
            v < n,
            visited@.len() == n,
            forall|j: int| 0 <= j < q@.len() ==> #[trigger] q@[j] < n && reaches(adj, v as int, q@[j] as int),
            forall|i: int|
                0 <= i < order@.len() ==> #[trigger] order@[i] < n && visited@[order@[i] as int]
                    && reaches(adj, v as int, order@[i] as int),
            forall|x: int| 0 <= x < n && #[trigger] visited@[x] ==> names_from(order@, 0, x),
            forall|x: int, k: int|
                0 <= x < n && visited@[x] && 0 <= k < adj[x].len() ==> visited@[#[trigger] adj[x][k] as int]
                    || names_from(q@, 0, adj[x][k] as int),
            order@.len() == 0 ==> q@.len() == 1 && q@[0] == v,
            order@.len() > 0 ==> order@[0] == v,
        decreases queue_weight(adj, visited@, q@),
    {
        let ghost q0 = q@;
        let ghost vis0 = visited@;
        let ghost order0 = order@;
        let x = q.pop_front().unwrap();
        visited[x] = true;
        order.push(x);
        let ghost rest = q@;
        let ghost vis1 = visited@;
        proof {
            assert(q0[0] == x);
            assert(rest =~= q0.subrange(1, q0.len() as int));
            lemma_queue_weight_pop(adj, vis0, q0);
            assert(vis1 =~= vis0.update(x as int, true));
            assert forall|j: int| 0 <= j < rest.len() implies #[trigger] rest[j] < vis0.len() by {
                assert(rest[j] == q0[j + 1]);
            }
            lemma_queue_weight_mono(adj, vis0, vis1, rest);
            assert forall|j: int| 0 <= j < rest.len() implies #[trigger] rest[j] < n && reaches(
                adj,
                v as int,
                rest[j] as int,
            ) by {
                assert(rest[j] == q0[j + 1]);
            }
            assert forall|i: int| 0 <= i < order@.len() implies #[trigger] order@[i] < n
                && vis1[order@[i] as int] && reaches(adj, v as int, order@[i] as int) by {
                if i < order0.len() {
                    assert(order@[i] == order0[i]);
                }
            }
            assert forall|y: int| 0 <= y < n && #[trigger] vis1[y] implies names_from(
                order@,
                0,
                y,
            ) by {
                if y == x {
                    assert(order@[order0.len() as int] == y);
                } else {
                    assert(vis0[y]);
                    let i = choose|i: int| 0 <= i < order0.len() && #[trigger] order0[i] == y;
                    assert(order@[i] == y);
                }
            }
            assert forall|y: int, k: int|
                0 <= y < n && y != x && vis1[y] && 0 <= k < adj[y].len() implies vis1[
            #[trigger] adj[y][k] as int] || names_from(rest, 0, adj[y][k] as int) by {
                let z = adj[y][k] as int;
                assert(vis0[y]);
                assert(0 <= z < n);
                if !vis0[z] {
                    let j = choose|j: int| 0 <= j < q0.len() && #[trigger] q0[j] == z;
                    if j > 0 {
                        assert(rest[j - 1] == z);
                    }
                }
            }
            assert(order@[0] == v);
        }
        let list = g.edges(x);
        let mut k: usize = 0;
        while k < list.len()
            invariant
                g.wf(),
                adj == g@,
                adj.len() == n,
                closed_graph(adj),
                v < n,
                x < n,
                list@ == adj[x as int],
                k <= list@.len(),
                visited@ == vis1,
                vis1.len() == n,
                vis1[x as int],
                reaches(adj, v as int, x as int),
                q@.len() >= rest.len(),
                q@.subrange(0, rest.len() as int) == rest,
                queue_weight(adj, vis1, q@) == queue_weight(adj, vis1, rest) + weight_sum(
                    adj,
                    vis1,
                    list@,
                    k as nat,
                ),
                forall|j: int|
                    0 <= j < q@.len() ==> #[trigger] q@[j] < n && reaches(adj, v as int, q@[j] as int),
                forall|y: int, i: int|
                    0 <= y < n && y != x && vis1[y] && 0 <= i < adj[y].len() ==> vis1[
                    #[trigger] adj[y][i] as int] || names_from(q@, 0, adj[y][i] as int),
                forall|i: int|
                    0 <= i < k ==> vis1[#[trigger] list@[i] as int] || names_from(
                        q@,
                        0,
                        list@[i] as int,
                    ),
            decreases list@.len() - k,
        {
            let w = list[k];
            let ghost q1 = q@;
            assert(adj[x as int][k as int] < adj.len());
            if !visited[w] {
                q.push_back(w);
                proof {
                    assert(q@.drop_last() =~= q1);
                    assert(edge(adj, x as int, w as int));
                    lemma_reaches_step(adj, v as int, x as int, w as int);
                    assert(q@[q1.len() as int] == w);
                    assert(q@.subrange(0, rest.len() as int) =~= q1.subrange(0, rest.len() as int));
                }
            }
            proof {
                assert forall|j: int| 0 <= j < q@.len() implies #[trigger] q@[j] < n && reaches(
                    adj,
                    v as int,
                    q@[j] as int,
                ) by {
                    if j < q1.len() {
                        assert(q@[j] == q1[j]);
                    }
                }
                assert forall|z: int| names_from(q1, 0, z) implies names_from(q@, 0, z) by {
                    let j = choose|j: int| 0 <= j < q1.len() && #[trigger] q1[j] == z;
                    assert(q@[j] == z);
                }
                assert forall|y: int, i: int|
                    0 <= y < n && y != x && vis1[y] && 0 <= i < adj[y].len() implies vis1[
                #[trigger] adj[y][i] as int] || names_from(q@, 0, adj[y][i] as int) by {
                    if !vis1[adj[y][i] as int] {
                        assert(names_from(q1, 0, adj[y][i] as int));
                    }
                }
                assert forall|i: int| 0 <= i < k + 1 implies vis1[#[trigger] list@[i] as int]
                    || names_from(q@, 0, list@[i] as int) by {
                    if i < k {
                        if !vis1[list@[i] as int] {
                            assert(names_from(q1, 0, list@[i] as int));
                        }
                    } else if !vis1[w as int] {
                        assert(q@[q1.len() as int] == w);
                    }
                }
            }
            k += 1;
        }
        proof {
            assert forall|y: int, i: int|
                0 <= y < n && visited@[y] && 0 <= i < adj[y].len() implies visited@[
            #[trigger] adj[y][i] as int] || names_from(q@, 0, adj[y][i] as int) by {
                if y == x {
                    assert(vis1[list@[i] as int] || names_from(q@, 0, list@[i] as int));
                }
            }
            assert(weight(adj, vis0, x as int) == 1 + weight_sum(
                adj,
                vis1,
                list@,
                list@.len(),
            ));
        }
    }
    proof {
        assert forall|u: int| #[trigger] names_from(order@, 0, u) <==> reaches(adj, v as int, u) by {
            if names_from(order@, 0, u) {
                let i = choose|i: int| 0 <= i < order@.len() && #[trigger] order@[i] == u;
                assert(reaches(adj, v as int, order@[i] as int));
            }
            if reaches(adj, v as int, u) {
                assert(visited@[order@[0] as int]);
                assert forall|y: int, i: int|
                    0 <= y < n && visited@[y] && 0 <= i < adj[y].len() implies visited@[
                #[trigger] adj[y][i] as int] by {
                    if names_from(q@, 0, adj[y][i] as int) {
                        let j = choose|j: int| 0 <= j < q@.len() && #[trigger] q@[j] == adj[y][i];
                    }
                }
                lemma_closed_holds_reachable(adj, visited@, v as int, u);
            }
        }
    }
    order
}

} // verus!
