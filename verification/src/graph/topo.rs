//! Topological order.

use crate::graph::closed_graph;
use crate::graph::edge;
use crate::graph::in_degree;
use crate::graph::in_degree_upto;
use crate::graph::lemma_occurrences_positive;
use crate::graph::lemma_occurrences_prefix;
use crate::graph::lemma_unvisited_mark;
use crate::graph::is_path;
use crate::graph::lemma_path_in_range;
use crate::graph::lemma_reaches_self;
use crate::graph::lemma_reaches_step;
use crate::graph::lemma_unvisited_mono;
use crate::graph::names_from;
use crate::graph::reaches;
use crate::graph::occurrences;
use crate::graph::unvisited;
use crate::graph::Graph;
use std::collections::VecDeque;
use vstd::prelude::*;

verus! {

/// Whether no vertex stands twice in `s`.
pub open spec fn no_repeats(s: Seq<usize>) -> bool {
    forall|i: int, j: int| 0 <= i < j < s.len() ==> s[i] != s[j]
}

/// Whether `s` names `u` before place `upto`.
pub open spec fn names_before(s: Seq<usize>, upto: int, u: int) -> bool {
    exists|j: int| 0 <= j < upto && j < s.len() && #[trigger] s[j] == u
}

/// Whether every vertex of `topo` stands after all the vertices that have
/// an edge to it.
pub open spec fn respects_edges(adj: Seq<Seq<usize>>, topo: Seq<usize>) -> bool {
    forall|i: int, u: int|
        0 <= i < topo.len() && edge(adj, u, #[trigger] topo[i] as int) ==> #[trigger] names_before(
            topo,
            i,
            u,
        )
}

/// The number of edges into `v` from those of the first `n` vertices that
/// are not done.
pub open spec fn remaining(adj: Seq<Seq<usize>>, done: Seq<bool>, n: int, v: usize) -> nat
    decreases n,
{
    if n <= 0 {
        0
    } else {
        remaining(adj, done, n - 1, v) + if done[n - 1] {
            0nat
        } else {
            occurrences(adj[n - 1], v)
        }
    }
}

/// With nothing done, all edges remain.
pub proof fn lemma_remaining_all(adj: Seq<Seq<usize>>, done: Seq<bool>, n: int, v: usize)
    requires
        0 <= n <= done.len(),
        forall|i: int| 0 <= i < n ==> !done[i],
    ensures
        remaining(adj, done, n, v) == in_degree_upto(adj, n, v),
    decreases n,
{
    if n > 0 {
        lemma_remaining_all(adj, done, n - 1, v);
    }
}

/// When `u` gets done, its edges into `v` remain no more.
pub proof fn lemma_remaining_mark(adj: Seq<Seq<usize>>, done: Seq<bool>, n: int, u: int, v: usize)
    requires
        0 <= n <= done.len(),
        0 <= u < done.len(),
        !done[u],
    ensures
        remaining(adj, done.update(u, true), n, v) + (if u < n {
            occurrences(adj[u], v)
        } else {
            0nat
        }) == remaining(adj, done, n, v),
    decreases n,
{
    if n > 0 {
        lemma_remaining_mark(adj, done, n - 1, u, v);
    }
}

/// When no edge into `v` remains, no vertex that is not done has one.
pub proof fn lemma_remaining_none(adj: Seq<Seq<usize>>, done: Seq<bool>, n: int, v: usize, p: int)
    requires
        remaining(adj, done, n, v) == 0,
        0 <= p < n,
        !done[p],
    ensures
        occurrences(adj[p], v) == 0,
    decreases n,
{
    if p < n - 1 {
        lemma_remaining_none(adj, done, n - 1, v, p);
    }
}

/// When an edge into `v` remains, a vertex that is not done has one.
pub proof fn lemma_remaining_some(adj: Seq<Seq<usize>>, done: Seq<bool>, n: int, v: usize) -> (p: int)
    requires
        remaining(adj, done, n, v) > 0,
    ensures
        0 <= p < n,
        !done[p],
        occurrences(adj[p], v) > 0,
    decreases n,
{
    if n <= 0 {
        0
    } else if !done[n - 1] && occurrences(adj[n - 1], v) > 0 {
        n - 1
    } else {
        lemma_remaining_some(adj, done, n - 1, v)
    }
}

/// What a list names once it has been given `v`.
pub proof fn lemma_names_after_push(s: Seq<usize>, v: usize, x: int)
    ensures
        names_from(s.push(v), 0, x) <==> (names_from(s, 0, x) || x == v),
{
    let t = s.push(v);
    if names_from(t, 0, x) {
        let k = choose|k: int| 0 <= k < t.len() && #[trigger] t[k] == x;
        if k < s.len() {
            assert(s[k] == x);
        }
    }
    if names_from(s, 0, x) {
        let k = choose|k: int| 0 <= k < s.len() && #[trigger] s[k] == x;
        assert(t[k] == x);
    }
    if x == v {
        assert(t[s.len() as int] == x);
    }
}

/// What a list names once its first entry has been taken off.
pub proof fn lemma_names_after_pop(s: Seq<usize>, x: int)
    requires
        s.len() > 0,
    ensures
        names_from(s, 0, x) <==> (names_from(s.subrange(1, s.len() as int), 0, x) || x == s[0]),
{
    let t = s.subrange(1, s.len() as int);
    if names_from(s, 0, x) {
        let k = choose|k: int| 0 <= k < s.len() && #[trigger] s[k] == x;
        if k > 0 {
            assert(t[k - 1] == x);
        }
    }
    if names_from(t, 0, x) {
        let k = choose|k: int| 0 <= k < t.len() && #[trigger] t[k] == x;
        assert(s[k + 1] == x);
    }
    if x == s[0] {
        assert(s[0] == x);
    }
}

/// Lists the vertices so that each stands after all the vertices that have
/// an edge to it, as far as that can be done: a vertex on a cycle, or
/// behind one, is left out.
///
/// The list holds no vertex twice, and every vertex that it leaves out has
/// an edge from another vertex that it leaves out.
pub fn toposort_kahn(g: &Graph) -> (topo: Vec<usize>)
    requires
        g.wf(),
        closed_graph(g@),
        forall|w: usize| w < g.vertices() ==> in_degree(g@, w) <= usize::MAX,
    ensures
        no_repeats(topo@),
        forall|i: int| 0 <= i < topo@.len() ==> topo@[i] < g.vertices(),
        respects_edges(g@, topo@),
        forall|v: int|
            0 <= v < g.vertices() && !names_from(topo@, 0, v) ==> exists|u: int|
                0 <= u < g.vertices() && !names_from(topo@, 0, u) && #[trigger] edge(g@, u, v),
{
    let ghost adj = g@;
    let n = g.len();
    proof {
        g.lemma_view_len();
    }
    let mut in_degs = g.in_degs();
    let mut q: VecDeque<usize> = VecDeque::new();
    let mut v: usize = 0;
    while v < n
        invariant
            v <= n,
            in_degs@.len() == n,
            no_repeats(q@),
            forall|j: int| 0 <= j < q@.len() ==> q@[j] < v,
            forall|x: int| 0 <= x < v ==> ((in_degs@[x] == 0) <==> #[trigger] names_from(q@, 0, x)),
        decreases n - v,
    {
        let ghost q0 = q@;
        if in_degs[v] == 0 {
            q.push_back(v);
        }
        proof {
            assert forall|x: int| 0 <= x < v + 1 implies ((in_degs@[x] == 0) <==> #[trigger] names_from(
                q@,
                0,
                x,
            )) by {
                if in_degs@[v as int] == 0 {
                    lemma_names_after_push(q0, v, x);
                }
                if names_from(q0, 0, x) {
                    let k = choose|k: int| 0 <= k < q0.len() && #[trigger] q0[k] == x;
                    assert(q0[k] < v);
                }
            }
        }
        v += 1;
    }
    let mut topo: Vec<usize> = Vec::new();
    let ghost mut done: Seq<bool> = Seq::new(n as nat, |i: int| false);
    proof {
        assert forall|x: usize| x < n implies in_degs@[x as int] == remaining(
            adj,
            done,
            n as int,
            x,
        ) by {
            lemma_remaining_all(adj, done, n as int, x);
        }
        assert forall|j: int| 0 <= j < q@.len() implies in_degs@[#[trigger] q@[j] as int] == 0 by {
            assert(names_from(q@, 0, q@[j] as int));
        }
    }
    while q.len() > 0
        invariant
            g.wf(),
            adj == g@,
            adj.len() == n,
            closed_graph(adj),
            in_degs@.len() == n,
            done.len() == n,
            forall|i: int| 0 <= i < topo@.len() ==> #[trigger] topo@[i] < n && done[topo@[i] as int],
            forall|x: int| 0 <= x < n && #[trigger] done[x] ==> names_from(topo@, 0, x),
            forall|x: int| 0 <= x < n && #[trigger] done[x] ==> in_degs@[x] == 0,
            no_repeats(topo@),
            no_repeats(q@),
            forall|j: int|
                0 <= j < q@.len() ==> #[trigger] q@[j] < n && !done[q@[j] as int]
                    && in_degs@[q@[j] as int] == 0,
            forall|x: usize| x < n ==> in_degs@[x as int] == remaining(adj, done, n as int, x),
            forall|x: int|
                0 <= x < n && #[trigger] in_degs@[x] == 0 ==> done[x] || names_from(q@, 0, x),
            respects_edges(adj, topo@),
        decreases unvisited(done),
    {
        let ghost q0 = q@;
        let ghost topo0 = topo@;
        let ghost done0 = done;
        let u = q.pop_front().unwrap();
        topo.push(u);
        proof {
            assert(q0[0] == u);
            assert(q@ =~= q0.subrange(1, q0.len() as int));
            done = done0.update(u as int, true);
            lemma_unvisited_mark(done0, u as int);
            assert forall|i: int| 0 <= i < topo@.len() implies #[trigger] topo@[i] < n
                && done[topo@[i] as int] by {
                if i < topo0.len() {
                    assert(topo@[i] == topo0[i]);
                }
            }
            assert forall|x: int| 0 <= x < n && #[trigger] done[x] implies names_from(
                topo@,
                0,
                x,
            ) by {
                lemma_names_after_push(topo0, u, x);
                if x != u {
                    assert(done0[x]);
                }
            }
            assert forall|x: int| 0 <= x < n && #[trigger] done[x] implies in_degs@[x] == 0 by {
                if x != u {
                    assert(done0[x]);
                }
            }
            assert(no_repeats(topo@)) by {
                assert forall|i: int, j: int| 0 <= i < j < topo@.len() implies topo@[i]
                    != topo@[j] by {
                    if j == topo0.len() {
                        assert(topo@[i] == topo0[i]);
                        assert(done0[topo0[i] as int]);
                    }
                }
            }
            assert(no_repeats(q@)) by {
                assert forall|i: int, j: int| 0 <= i < j < q@.len() implies q@[i] != q@[j] by {
                    assert(q@[i] == q0[i + 1] && q@[j] == q0[j + 1]);
                }
            }
            assert forall|j: int| 0 <= j < q@.len() implies #[trigger] q@[j] < n && !done[q@[j] as int]
                && in_degs@[q@[j] as int] == 0 by {
                assert(q@[j] == q0[j + 1]);
                assert(q0[j + 1] != q0[0]);
            }
            assert(respects_edges(adj, topo@)) by {
                assert forall|i: int, p: int|
                    0 <= i < topo@.len() && edge(
                        adj,
                        p,
                        #[trigger] topo@[i] as int,
                    ) implies #[trigger] names_before(topo@, i, p) by {
                    if i < topo0.len() {
                        assert(topo0[i] == topo@[i]);
                        assert(names_before(topo0, i, p));
                        let j = choose|j: int| 0 <= j < i && j < topo0.len() && #[trigger] topo0[j] == p;
                        assert(topo@[j] == p);
                    } else {
                        lemma_occurrences_positive(adj[p], u);
                        let k = choose|k: int| 0 <= k < adj[p].len() && #[trigger] adj[p][k] == u as int;
                        assert(adj[p][k] == u);
                        if !done0[p] {
                            lemma_remaining_none(adj, done0, n as int, u, p);
                        }
                        assert(done0[p]);
                        assert(names_from(topo0, 0, p));
                        let j = choose|j: int| 0 <= j < topo0.len() && #[trigger] topo0[j] == p;
                        assert(topo@[j] == p);
                    }
                }
            }
            assert forall|x: int| 0 <= x < n && #[trigger] in_degs@[x] == 0 implies done[x]
                || names_from(q@, 0, x) by {
                lemma_names_after_pop(q0, x);
            }
        }
        let list = g.edges(u);
        let mut k: usize = 0;
        while k < list.len()
            invariant
                g.wf(),
                adj == g@,
                adj.len() == n,
                closed_graph(adj),
                u < n,
                list@ == adj[u as int],
                k <= list@.len(),
                in_degs@.len() == n,
                done0.len() == n,
                !done0[u as int],
                done == done0.update(u as int, true),
                forall|x: int| 0 <= x < n && #[trigger] done[x] ==> in_degs@[x] == 0,
                no_repeats(q@),
                forall|j: int|
                    0 <= j < q@.len() ==> #[trigger] q@[j] < n && !done[q@[j] as int]
                        && in_degs@[q@[j] as int] == 0,
                forall|x: usize|
                    x < n ==> in_degs@[x as int] + occurrences(list@.subrange(0, k as int), x)
                        == remaining(adj, done0, n as int, x),
                forall|x: int|
                    0 <= x < n && #[trigger] in_degs@[x] == 0 ==> done[x] || names_from(q@, 0, x),
            decreases list@.len() - k,
        {
            let w = list[k];
            let ghost q1 = q@;
            let ghost degs1 = in_degs@;
            proof {
                assert(adj[u as int][k as int] < adj.len());
                assert(list@.subrange(0, k + 1).drop_last() =~= list@.subrange(0, k as int));
                assert(list@.subrange(0, k + 1).last() == w);
                lemma_occurrences_prefix(list@, k + 1, w);
                lemma_remaining_mark(adj, done0, n as int, u as int, w);
                assert(degs1[w as int] >= 1);
                assert(!done[w as int]);
            }
            in_degs[w] = in_degs[w] - 1;
            if in_degs[w] == 0 {
                q.push_back(w);
            }
            proof {
                assert forall|j: int| 0 <= j < q1.len() implies q1[j] != w by {
                    assert(degs1[q1[j] as int] == 0);
                }
                assert(no_repeats(q@)) by {
                    assert forall|i: int, j: int| 0 <= i < j < q@.len() implies q@[i] != q@[j] by {
                        if j < q1.len() {
                            assert(q@[i] == q1[i] && q@[j] == q1[j]);
                        } else {
                            assert(q@[i] == q1[i]);
                        }
                    }
                }
                assert forall|j: int| 0 <= j < q@.len() implies #[trigger] q@[j] < n
                    && !done[q@[j] as int] && in_degs@[q@[j] as int] == 0 by {
                    if j < q1.len() {
                        assert(q@[j] == q1[j]);
                        assert(q1[j] != w);
                        assert(degs1[q1[j] as int] == 0);
                    }
                }
                assert forall|x: int| 0 <= x < n && #[trigger] done[x] implies in_degs@[x]
                    == 0 by {
                    assert(degs1[x] == 0);
                }
                assert forall|x: int| 0 <= x < n && #[trigger] in_degs@[x] == 0 implies done[x]
                    || names_from(q@, 0, x) by {
                    if x == w {
                        lemma_names_after_push(q1, w, x);
                    } else {
                        assert(degs1[x] == 0);
                        if names_from(q1, 0, x) {
                            let j = choose|j: int| 0 <= j < q1.len() && #[trigger] q1[j] == x;
                            assert(q@[j] == x);
                        }
                    }
                }
                assert forall|x: usize| x < n implies in_degs@[x as int] + occurrences(
                    list@.subrange(0, k + 1),
                    x,
                ) == remaining(adj, done0, n as int, x) by {
                    if x != w {
                        assert(in_degs@[x as int] == degs1[x as int]);
                    }
                }
            }
            k += 1;
        }
        proof {
            assert(list@.subrange(0, k as int) =~= list@);
            assert forall|x: usize| x < n implies in_degs@[x as int] == remaining(
                adj,
                done,
                n as int,
                x,
            ) by {
                lemma_remaining_mark(adj, done0, n as int, u as int, x);
            }
        }
    }
    proof {
        assert forall|v: int| 0 <= v < n && !names_from(topo@, 0, v) implies exists|u: int|
            0 <= u < n && !names_from(topo@, 0, u) && #[trigger] edge(adj, u, v) by {
            if done[v] {
                assert(names_from(topo@, 0, v));
            }
            if in_degs@[v] == 0 {
                assert(names_from(q@, 0, v));
                let k = choose|k: int| 0 <= k < q@.len() && #[trigger] q@[k] == v;
                assert(false);
            }
            let p = lemma_remaining_some(adj, done, n as int, v as usize);
            lemma_occurrences_positive(adj[p], v as usize);
            let k = choose|k: int| 0 <= k < adj[p].len() && #[trigger] adj[p][k] == v as usize;
            assert(adj[p][k] == v);
            assert(edge(adj, p, v));
            if names_from(topo@, 0, p) {
                let i = choose|i: int| 0 <= i < topo@.len() && #[trigger] topo@[i] == p;
                assert(done[topo@[i] as int]);
            }
        }
    }
    topo
}

/// Whether some vertex reaches itself along at least one edge.
pub open spec fn has_cycle(adj: Seq<Seq<usize>>) -> bool {
    exists|x: int, y: int| #[trigger] edge(adj, x, y) && reaches(adj, y, x)
}

/// Which vertices the walk has come to: those whose mark is not zero.
pub open spec fn touched(marks: Seq<i32>) -> Seq<bool> {
    marks.map_values(|m: i32| m != 0)
}

/// Whether every successor of the vertex at each place of `post` stands
/// before that place.
pub open spec fn successors_first(adj: Seq<Seq<usize>>, post: Seq<usize>) -> bool {
    forall|i: int, k: int|
        0 <= i < post.len() && 0 <= k < adj[post[i] as int].len() ==> names_before(
            post,
            i,
            #[trigger] adj[post[i] as int][k] as int,
        )
}

/// What holds of the marks and the list while the walk is under way: a
/// mark is 0 (not come to), 1 (being walked from) or 2 (finished); what a
/// finished vertex has an edge to is finished; the list holds the finished
/// vertices, each once, every one after all that it has an edge to.
pub open spec fn walk_ok(adj: Seq<Seq<usize>>, marks: Seq<i32>, post: Seq<usize>) -> bool {
    &&& marks.len() == adj.len()
    &&& forall|x: int| 0 <= x < marks.len() ==> 0 <= #[trigger] marks[x] <= 2
    &&& forall|x: int, k: int|
        0 <= x < marks.len() && marks[x] == 2 && 0 <= k < adj[x].len() ==> marks[#[trigger] adj[x][k] as int]
            == 2
    &&& forall|i: int| 0 <= i < post.len() ==> #[trigger] post[i] < marks.len() && marks[post[i] as int] == 2
    &&& forall|x: int| 0 <= x < marks.len() && #[trigger] marks[x] == 2 ==> names_from(post, 0, x)
    &&& no_repeats(post)
    &&& successors_first(adj, post)
}

/// Walks on from `u`, which was not come to yet, and appends every vertex
/// to `topo` when it is finished. Gives up, returning `false`, on coming
/// to a vertex that is being walked from.
fn toposort_dfs_recur(topo: &mut Vec<usize>, g: &Graph, visited: &mut [i32], u: usize) -> (ok: bool)
    requires
        g.wf(),
        closed_graph(g@),
        g@.len() == g.vertices(),
        u < g.vertices(),
        walk_ok(g@, old(visited)@, old(topo)@),
        old(visited)@[u as int] == 0,
        forall|x: int|
            0 <= x < old(visited)@.len() && #[trigger] old(visited)@[x] == 1 ==> reaches(
                g@,
                x,
                u as int,
            ),
    ensures
        final(visited)@.len() == old(visited)@.len(),
        !ok ==> has_cycle(g@),
        ok ==> walk_ok(g@, final(visited)@, final(topo)@),
        ok ==> final(visited)@[u as int] == 2,
        ok ==> forall|x: int|
            0 <= x < old(visited)@.len() ==> ((#[trigger] final(visited)@[x] == 1) == (old(
                visited,
            )@[x] == 1)),
        ok ==> forall|x: int|
            0 <= x < old(visited)@.len() && old(visited)@[x] != 0 ==> #[trigger] final(visited)@[x]
                == old(visited)@[x],
    decreases unvisited(touched(old(visited)@)),
{
    let ghost adj = g@;
    let ghost before = visited@;
    let ghost topo0 = topo@;
    visited[u] = 1;
    proof {
        assert(touched(visited@) =~= touched(before).update(u as int, true));
        lemma_unvisited_mark(touched(before), u as int);
        lemma_reaches_self(adj, u as int);
    }
    let list = g.edges(u);
    let mut k: usize = 0;
    while k < list.len()
        invariant
            g.wf(),
            adj == g@,
            adj.len() == g.vertices(),
            closed_graph(adj),
            u < adj.len(),
            before == old(visited)@,
            before.len() == adj.len(),
            before[u as int] == 0,
            list@ == adj[u as int],
            k <= list@.len(),
            walk_ok(adj, visited@, topo@),
            visited@[u as int] == 1,
            unvisited(touched(visited@)) < unvisited(touched(before)),
            forall|x: int|
                0 <= x < before.len() && x != u ==> ((#[trigger] visited@[x] == 1) == (before[x]
                    == 1)),
            forall|x: int|
                0 <= x < before.len() && before[x] != 0 ==> #[trigger] visited@[x] == before[x],
            forall|x: int|
                0 <= x < before.len() && #[trigger] visited@[x] == 1 ==> reaches(adj, x, u as int),
            forall|j: int| 0 <= j < k ==> visited@[#[trigger] list@[j] as int] == 2,
        decreases list@.len() - k,
    {
        let v = list[k];
        assert(adj[u as int][k as int] < adj.len());
        if visited[v] == 1 {
            proof {
                assert(edge(adj, u as int, v as int));
                assert(reaches(adj, v as int, u as int));
            }
            return false;
        }
        if visited[v] == 0 {
            let ghost vis1 = visited@;
            proof {
                assert(edge(adj, u as int, v as int));
                assert forall|x: int|
                    0 <= x < vis1.len() && #[trigger] vis1[x] == 1 implies reaches(
                    adj,
                    x,
                    v as int,
                ) by {
                    lemma_reaches_step(adj, x, u as int, v as int);
                }
            }
            if !toposort_dfs_recur(topo, g, visited, v) {
                return false;
            }
            proof {
                let vis2 = visited@;
                assert forall|i: int| 0 <= i < vis1.len() && touched(vis1)[i] implies touched(
                    vis2,
                )[i] by {
                    assert(vis2[i] == vis1[i]);
                }
                lemma_unvisited_mono(touched(vis1), touched(vis2));
                assert forall|x: int|
                    0 <= x < before.len() && x != u implies ((#[trigger] vis2[x] == 1) == (before[x]
                    == 1)) by {
                    assert((vis2[x] == 1) == (vis1[x] == 1));
                }
                assert forall|x: int|
                    0 <= x < before.len() && before[x] != 0 implies #[trigger] vis2[x]
                    == before[x] by {
                    assert(vis1[x] == before[x]);
                }
                assert forall|x: int|
                    0 <= x < before.len() && #[trigger] vis2[x] == 1 implies reaches(
                    adj,
                    x,
                    u as int,
                ) by {
                    assert(vis1[x] == 1);
                }
                assert forall|j: int| 0 <= j < k + 1 implies vis2[#[trigger] list@[j] as int]
                    == 2 by {
                    if j < k {
                        assert(vis1[list@[j] as int] == 2);
                    }
                }
            }
        }
        k += 1;
    }
    let ghost vis3 = visited@;
    let ghost topo3 = topo@;
    visited[u] = 2;
    topo.push(u);
    proof {
        let marks = visited@;
        let post = topo@;
        assert forall|x: int| 0 <= x < marks.len() implies 0 <= #[trigger] marks[x] <= 2 by {
            assert(0 <= vis3[x] <= 2);
        }
        assert forall|x: int, j: int|
            0 <= x < marks.len() && marks[x] == 2 && 0 <= j < adj[x].len() implies marks[#[trigger] adj[x][j] as int]
            == 2 by {
            if x == u {
                assert(vis3[list@[j] as int] == 2);
            } else {
                assert(vis3[x] == 2);
                assert(vis3[adj[x][j] as int] == 2);
            }
        }
        assert forall|i: int| 0 <= i < post.len() implies #[trigger] post[i] < marks.len()
            && marks[post[i] as int] == 2 by {
            if i < topo3.len() {
                assert(post[i] == topo3[i]);
                assert(vis3[topo3[i] as int] == 2);
            }
        }
        assert forall|x: int| 0 <= x < marks.len() && #[trigger] marks[x] == 2 implies names_from(
            post,
            0,
            x,
        ) by {
            lemma_names_after_push(topo3, u, x);
            if x != u {
                assert(vis3[x] == 2);
            }
        }
        assert(no_repeats(post)) by {
            assert forall|i: int, j: int| 0 <= i < j < post.len() implies post[i] != post[j] by {
                if j == topo3.len() {
                    assert(post[i] == topo3[i]);
                    assert(vis3[topo3[i] as int] == 2);
                }
            }
        }
        assert(successors_first(adj, post)) by {
            assert forall|i: int, j: int|
                0 <= i < post.len() && 0 <= j < adj[post[i] as int].len() implies names_before(
                post,
                i,
                #[trigger] adj[post[i] as int][j] as int,
            ) by {
                let s = adj[post[i] as int][j] as int;
                if i < topo3.len() {
                    assert(post[i] == topo3[i]);
                    assert(names_before(topo3, i, s));
                    let c = choose|c: int| 0 <= c < i && c < topo3.len() && #[trigger] topo3[c] == s;
                    assert(post[c] == s);
                } else {
                    assert(vis3[list@[j] as int] == 2);
                    assert(names_from(topo3, 0, s));
                    let c = choose|c: int| 0 <= c < topo3.len() && #[trigger] topo3[c] == s;
                    assert(post[c] == s);
                }
            }
        }
        assert forall|x: int|
            0 <= x < before.len() implies ((#[trigger] marks[x] == 1) == (before[x] == 1)) by {
            if x != u {
                assert((vis3[x] == 1) == (before[x] == 1));
            }
        }
        assert forall|x: int| 0 <= x < before.len() && before[x] != 0 implies #[trigger] marks[x]
            == before[x] by {
            assert(vis3[x] == before[x]);
        }
    }
    true
}

/// A list of `n` zeros.
fn zero_marks(n: usize) -> (v: Vec<i32>)
    ensures
        v@.len() == n,
        forall|i: int| 0 <= i < n ==> v@[i] == 0,
{
    let mut v: Vec<i32> = Vec::new();
    let mut i: usize = 0;
    while i < n
        invariant
            i <= n,
            v@.len() == i,
            forall|j: int| 0 <= j < i ==> v@[j] == 0,
        decreases n - i,
    {
        v.push(0i32);
        i += 1;
    }
    v
}

/// The list read from its end.
fn reversed(v: &Vec<usize>) -> (r: Vec<usize>)
    ensures
        r@ == v@.reverse(),
{
    let mut r: Vec<usize> = Vec::new();
    let mut i: usize = v.len();
    while i > 0
        invariant
            i <= v@.len(),
            r@.len() == v@.len() - i,
            forall|j: int| 0 <= j < r@.len() ==> r@[j] == v@[v@.len() - 1 - j],
        decreases i,
    {
        i -= 1;
        r.push(v[i]);
    }
    assert(r@ =~= v@.reverse());
    r
}

/// Whether `topo` lists every vertex once and each before all the vertices
/// that it has an edge to.
pub open spec fn is_topological(adj: Seq<Seq<usize>>, topo: Seq<usize>) -> bool {
    &&& no_repeats(topo)
    &&& forall|i: int| 0 <= i < topo.len() ==> #[trigger] topo[i] < adj.len()
    &&& forall|x: int| 0 <= x < adj.len() ==> #[trigger] names_from(topo, 0, x)
    &&& forall|i: int, j: int|
        0 <= i < topo.len() && 0 <= j < topo.len() && #[trigger] edge(
            adj,
            topo[i] as int,
            topo[j] as int,
        ) ==> i < j
}

/// Along a walk the places in a topological order do not go down.
proof fn lemma_walk_goes_up(adj: Seq<Seq<usize>>, topo: Seq<usize>, p: Seq<int>, i: int, a: int, b: int)
    requires
        closed_graph(adj),
        is_topological(adj, topo),
        is_path(adj, p),
        0 <= i < p.len(),
        0 <= a < topo.len(),
        0 <= b < topo.len(),
        topo[a] == p[0],
        topo[b] == p[i],
    ensures
        a <= b,
    decreases i,
{
    if i == 0 {
        if a < b {
            assert(topo[a] != topo[b]);
        } else if b < a {
            assert(topo[b] != topo[a]);
        }
    } else {
        lemma_path_in_range(adj, p, i - 1);
        assert(names_from(topo, 0, p[i - 1]));
        let c = choose|c: int| 0 <= c < topo.len() && #[trigger] topo[c] == p[i - 1];
        lemma_walk_goes_up(adj, topo, p, i - 1, a, c);
        assert(edge(adj, p[i - 1], p[i - 1 + 1]));
        assert(edge(adj, topo[c] as int, topo[b] as int));
    }
}

/// A graph whose vertices can be put in topological order has no cycle.
pub proof fn lemma_topological_no_cycle(adj: Seq<Seq<usize>>, topo: Seq<usize>)
    requires
        closed_graph(adj),
        is_topological(adj, topo),
    ensures
        !has_cycle(adj),
{
    if has_cycle(adj) {
        let (x, y) = choose|x: int, y: int| #[trigger] edge(adj, x, y) && reaches(adj, y, x);
        let k = choose|k: int| 0 <= k < adj[x].len() && #[trigger] adj[x][k] == y;
        assert(adj[x][k] < adj.len());
        assert(names_from(topo, 0, x));
        assert(names_from(topo, 0, y));
        let a = choose|a: int| 0 <= a < topo.len() && #[trigger] topo[a] == x;
        let b = choose|b: int| 0 <= b < topo.len() && #[trigger] topo[b] == y;
        assert(edge(adj, topo[a] as int, topo[b] as int));
        let p = choose|p: Seq<int>| is_path(adj, p) && p[0] == y && p.last() == x;
        lemma_walk_goes_up(adj, topo, p, p.len() - 1, b, a);
    }
}

/// Lists the vertices so that each stands before all the vertices that it
/// has an edge to, by a depth-first walk. Returns `None` exactly when the
/// graph has a cycle.
pub fn toposort_dfs(g: &Graph) -> (r: Option<Vec<usize>>)
    requires
        g.wf(),
        closed_graph(g@),
    ensures
        match r {
            Some(topo) => is_topological(g@, topo@) && !has_cycle(g@),
            None => has_cycle(g@),
        },
{
    let ghost adj = g@;
    proof {
        g.lemma_view_len();
    }
    let n = g.len();
    let mut topo: Vec<usize> = Vec::new();
    let mut visited = zero_marks(n);
    let mut u: usize = 0;
    while u < n
        invariant
            g.wf(),
            adj == g@,
            adj.len() == n,
            closed_graph(adj),
            u <= n,
            walk_ok(adj, visited@, topo@),
            forall|x: int| 0 <= x < n ==> #[trigger] visited@[x] != 1,
            forall|x: int| 0 <= x < u ==> #[trigger] visited@[x] == 2,
        decreases n - u,
    {
        if visited[u] == 0 {
            let ghost vis1 = visited@;
            if !toposort_dfs_recur(&mut topo, g, visited.as_mut_slice(), u) {
                return None;
            }
            proof {
                let vis2 = visited@;
                assert forall|x: int| 0 <= x < n implies #[trigger] vis2[x] != 1 by {
                    assert(vis1[x] != 1);
                }
                assert forall|x: int| 0 <= x < u + 1 implies #[trigger] vis2[x] == 2 by {
                    if x < u {
                        assert(vis1[x] == 2);
                    }
                }
            }
        } else {
            assert(0 <= visited@[u as int] <= 2);
        }
        u += 1;
    }
    let r = reversed(&topo);
    proof {
        let post = topo@;
        let t = r@;
        let len = post.len() as int;
        assert(no_repeats(t)) by {
            assert forall|i: int, j: int| 0 <= i < j < t.len() implies t[i] != t[j] by {
                assert(post[len - 1 - j] != post[len - 1 - i]);
            }
        }
        assert forall|i: int| 0 <= i < t.len() implies #[trigger] t[i] < adj.len() by {
            assert(post[len - 1 - i] < adj.len());
        }
        assert forall|x: int| 0 <= x < adj.len() implies #[trigger] names_from(t, 0, x) by {
            assert(visited@[x] == 2);
            assert(names_from(post, 0, x));
            let c = choose|c: int| 0 <= c < post.len() && #[trigger] post[c] == x;
            assert(t[len - 1 - c] == x);
        }
        assert forall|i: int, j: int|
            0 <= i < t.len() && 0 <= j < t.len() && #[trigger] edge(
                adj,
                t[i] as int,
                t[j] as int,
            ) implies i < j by {
            let a = t[i] as int;
            let b = t[j] as int;
            let k = choose|k: int| 0 <= k < adj[a].len() && #[trigger] adj[a][k] == b;
            assert(post[len - 1 - i] == a);
            assert(names_before(post, len - 1 - i, adj[post[len - 1 - i] as int][k] as int));
            let c = choose|c: int| 0 <= c < len - 1 - i && c < post.len() && #[trigger] post[c] == b;
            assert(post[len - 1 - j] == b);
            if c < len - 1 - j {
                assert(post[c] != post[len - 1 - j]);
            } else if len - 1 - j < c {
                assert(post[len - 1 - j] != post[c]);
            }
        }
        lemma_topological_no_cycle(adj, t);
    }
    Some(r)
}

} // verus!
