//! Strong connectivity.

use crate::graph::all_true;
use crate::graph::closed_graph;
use crate::graph::edge;
use crate::graph::is_path;
use crate::graph::lemma_path_in_range;
use crate::graph::lemma_reaches_first;
use crate::graph::lemma_reaches_self;
use crate::graph::lemma_unvisited_mark;
use crate::graph::lemma_unvisited_mono;
use crate::graph::unvisited;
use crate::graph::lemma_reaches_trans;
use crate::graph::lemma_transposed_closed;
use crate::graph::lemma_transposed_reaches;
use crate::graph::lemma_transposed_reaches_back;
use crate::graph::mark_reachable;
use crate::graph::reaches;
use crate::graph::transposed;
use crate::graph::Graph;
use vstd::prelude::*;

verus! {

/// Whether every vertex reaches every other.
pub open spec fn strongly_connected(adj: Seq<Seq<usize>>) -> bool {
    forall|u: int, v: int| 0 <= u < adj.len() && 0 <= v < adj.len() ==> reaches(adj, u, v)
}

/// Tells whether the graph is strongly connected, by walking from vertex 0
/// along the edges and against them.
pub fn is_sc(g: &Graph) -> (r: bool)
    requires
        g.wf(),
        closed_graph(g@),
        g.vertices() >= 1,
    ensures
        r == strongly_connected(g@),
{
    let ghost adj = g@;
    proof {
        g.lemma_view_len();
    }
    let visited = mark_reachable(g, 0);
    if !all_true(&visited) {
        proof {
            let u = choose|u: int| 0 <= u < visited@.len() && !visited@[u];
            assert(!reaches(adj, 0, u));
        }
        return false;
    }
    let r = g.transpose();
    proof {
        lemma_transposed_closed(adj);
        r.lemma_view_len();
    }
    let back = mark_reachable(&r, 0);
    let all = all_true(&back);
    proof {
        if all {
            assert forall|u: int, v: int|
                0 <= u < adj.len() && 0 <= v < adj.len() implies reaches(adj, u, v) by {
                assert(back@[u]);
                lemma_transposed_reaches_back(adj, u, 0);
                assert(visited@[v]);
                lemma_reaches_trans(adj, u, 0, v);
            }
        } else {
            let u = choose|u: int| 0 <= u < back@.len() && !back@[u];
            if reaches(adj, u, 0) {
                lemma_transposed_reaches(adj, u, 0);
            }
        }
    }
    all
}

/// Which vertices have a number: those the walk has come to.
pub open spec fn numbered(dfn: Seq<usize>) -> Seq<bool> {
    dfn.map_values(|d: usize| d != 0)
}

/// The working state of the search for strongly connected components.
struct TarjanContext {
    /// How many vertices have a number.
    dfn_cnt: usize,
    /// The number of each vertex, in the order in which the walk came to
    /// them; zero for a vertex not come to yet.
    dfn: Vec<usize>,
    /// The least number the vertex is known to reach on the stack.
    low: Vec<usize>,
    /// The vertices come to and not yet given to a component.
    stack: Vec<usize>,
    in_stack: Vec<bool>,
    /// The components found.
    scc: Vec<Vec<usize>>,
    /// For each vertex the place of its component in `scc`, or -1.
    owner: Ghost<Seq<int>>,
}

/// The components as lists.
pub open spec fn parts_of(scc: Seq<Vec<usize>>) -> Seq<Seq<usize>> {
    scc.map_values(|c: Vec<usize>| c@)
}

/// The lists are as long as the graph has vertices, and the numbers given
/// out are the numbers from one to the count.
#[verifier::opaque]
spec fn sizes(cnt: usize, dfn: Seq<usize>, low: Seq<usize>, ins: Seq<bool>, own: Seq<int>, n: nat) -> bool {
    &&& dfn.len() == n
    &&& low.len() == n
    &&& ins.len() == n
    &&& own.len() == n
    &&& cnt + unvisited(numbered(dfn)) == n
    &&& forall|v: int| 0 <= v < n ==> #[trigger] dfn[v] <= cnt
}

/// The stack holds vertices that have a number and no component yet, in
/// the order of their numbers, and it holds every vertex marked as being
/// on it.
#[verifier::opaque]
spec fn stack_ok(s: Seq<usize>, dfn: Seq<usize>, low: Seq<usize>, ins: Seq<bool>, own: Seq<int>, n: nat) -> bool {
    &&& forall|i: int|
        0 <= i < s.len() ==> #[trigger] s[i] < n && dfn[s[i] as int] != 0 && ins[s[i] as int]
            && own[s[i] as int] == -1 && low[s[i] as int] <= dfn[s[i] as int]
    &&& forall|i: int, j: int|
        0 <= i < j < s.len() ==> dfn[#[trigger] s[i] as int] < dfn[#[trigger] s[j] as int]
    &&& forall|v: int| 0 <= v < n && #[trigger] ins[v] ==> on_stack(s, v)
}

/// Whether the vertex at place `i` of the stack reaches the vertex at
/// place `j`, which stands no higher and has the number that the first
/// knows as the least it reaches.
spec fn links(s: Seq<usize>, dfn: Seq<usize>, low: Seq<usize>, adj: Seq<Seq<usize>>, i: int, j: int) -> bool {
    0 <= j <= i && dfn[s[j] as int] == low[s[i] as int] && reaches(adj, s[i] as int, s[j] as int)
}

/// Whether the vertex at place `i` of the stack has such a place to link
/// to.
spec fn linked(s: Seq<usize>, dfn: Seq<usize>, low: Seq<usize>, adj: Seq<Seq<usize>>, i: int) -> bool {
    exists|j: int| #[trigger] links(s, dfn, low, adj, i, j)
}

/// What a vertex on the stack knows as the least number it reaches is the
/// number of a vertex that stands on the stack, no higher than itself, and
/// that it does reach.
#[verifier::opaque]
spec fn low_ok(s: Seq<usize>, dfn: Seq<usize>, low: Seq<usize>, adj: Seq<Seq<usize>>) -> bool {
    forall|i: int| 0 <= i < s.len() ==> #[trigger] linked(s, dfn, low, adj, i)
}

/// Whether `v` stands on the stack.
spec fn on_stack(s: Seq<usize>, v: int) -> bool {
    exists|i: int| 0 <= i < s.len() && #[trigger] s[i] == v
}

/// Every vertex on the stack reaches the vertices above it.
#[verifier::opaque]
spec fn chain_ok(s: Seq<usize>, adj: Seq<Seq<usize>>) -> bool {
    forall|i: int, j: int|
        0 <= i < j < s.len() ==> reaches(adj, #[trigger] s[i] as int, #[trigger] s[j] as int)
}

/// The components hold the vertices that have a number and are not on the
/// stack, each once, and `own` tells for each vertex which component.
#[verifier::opaque]
spec fn comps_ok(scc: Seq<Seq<usize>>, own: Seq<int>, dfn: Seq<usize>, ins: Seq<bool>, n: nat) -> bool {
    &&& forall|v: int| 0 <= v < n ==> -1 <= #[trigger] own[v] < scc.len()
    &&& forall|v: int| 0 <= v < n && #[trigger] dfn[v] != 0 && !ins[v] ==> own[v] >= 0
    &&& forall|v: int| 0 <= v < n && #[trigger] own[v] >= 0 ==> dfn[v] != 0 && !ins[v]
    &&& forall|c: int, i: int|
        0 <= c < scc.len() && 0 <= i < scc[c].len() ==> (#[trigger] scc[c][i]) < n
            && own[scc[c][i] as int] == c
    &&& forall|v: int|
        0 <= v < n && #[trigger] own[v] >= 0 ==> exists|i: int|
            0 <= i < scc[own[v]].len() && #[trigger] scc[own[v]][i] == v
    &&& forall|c: int, i: int, j: int|
        0 <= c < scc.len() && 0 <= i < j < scc[c].len() ==> (#[trigger] scc[c][i]) != (
        #[trigger] scc[c][j])
    &&& forall|c: int| 0 <= c < scc.len() ==> (#[trigger] scc[c]).len() > 0
}

/// Within a component every vertex reaches every other, and an edge out
/// of a component leads into a component found no later.
#[verifier::opaque]
spec fn conn_ok(own: Seq<int>, adj: Seq<Seq<usize>>) -> bool {
    &&& forall|a: int, b: int|
        0 <= a < adj.len() && 0 <= b < adj.len() && own[a] >= 0 && #[trigger] own[a]
            == #[trigger] own[b] ==> reaches(adj, a, b)
    &&& forall|a: int, k: int|
        0 <= a < adj.len() && own[a] >= 0 && 0 <= k < adj[a].len() ==> 0 <= own[
        #[trigger] adj[a][k] as int] <= own[a]
}

/// Whether the first `upto` edges out of `y` are settled: each leads to a
/// vertex that has its component, or to one on the stack that `y` knows
/// it reaches.
#[verifier::opaque]
spec fn edges_done(
    own: Seq<int>,
    ins: Seq<bool>,
    low: Seq<usize>,
    dfn: Seq<usize>,
    adj: Seq<Seq<usize>>,
    y: int,
    upto: int,
) -> bool {
    forall|k: int|
        0 <= k < upto ==> own[#[trigger] adj[y][k] as int] >= 0 || (ins[adj[y][k] as int] && low[y]
            <= dfn[adj[y][k] as int])
}

/// What holds of the vertices that stand on the stack above place `p`:
/// they are finished, each knows that it reaches a vertex below itself,
/// none knows of a lesser number than `bound`, and all their edges are
/// settled.
#[verifier::opaque]
spec fn above_ok(
    s: Seq<usize>,
    own: Seq<int>,
    ins: Seq<bool>,
    low: Seq<usize>,
    dfn: Seq<usize>,
    adj: Seq<Seq<usize>>,
    bound: int,
    p: int,
) -> bool {
    forall|i: int|
        p < i < s.len() ==> {
            &&& bound <= low[#[trigger] s[i] as int]
            &&& low[s[i] as int] < dfn[s[i] as int]
            &&& edges_done(own, ins, low, dfn, adj, s[i] as int, adj[s[i] as int].len() as int)
        }
}

impl TarjanContext {
    /// What holds of the state between any two steps of the search.
    spec fn inv(&self, adj: Seq<Seq<usize>>) -> bool {
        let n = adj.len();
        &&& sizes(self.dfn_cnt, self.dfn@, self.low@, self.in_stack@, self.owner@, n)
        &&& stack_ok(self.stack@, self.dfn@, self.low@, self.in_stack@, self.owner@, n)
        &&& low_ok(self.stack@, self.dfn@, self.low@, adj)
        &&& chain_ok(self.stack@, adj)
        &&& comps_ok(parts_of(self.scc@), self.owner@, self.dfn@, self.in_stack@, n)
        &&& conn_ok(self.owner@, adj)
    }

    /// Whether the vertices above place `p` of the stack are as they
    /// should be, none knowing of a lesser number than `u` does.
    spec fn above(&self, adj: Seq<Seq<usize>>, u: usize, p: int) -> bool {
        above_ok(
            self.stack@,
            self.owner@,
            self.in_stack@,
            self.low@,
            self.dfn@,
            adj,
            self.low@[u as int] as int,
            p,
        )
    }

    /// Whether the first `k` edges out of `y` are settled.
    spec fn done(&self, adj: Seq<Seq<usize>>, y: int, k: int) -> bool {
        edges_done(self.owner@, self.in_stack@, self.low@, self.dfn@, adj, y, k)
    }
}

/// Whether `new` comes from `old` by going on with the search: what had a
/// number or a component keeps it, and the stack and the list of
/// components only grow.
#[verifier::opaque]
spec fn extends(old: TarjanContext, new: TarjanContext) -> bool {
    &&& old.dfn@.len() == new.dfn@.len()
    &&& old.dfn_cnt <= new.dfn_cnt
    &&& forall|v: int|
        0 <= v < old.dfn@.len() && old.dfn@[v] != 0 ==> #[trigger] new.dfn@[v] == old.dfn@[v]
    &&& forall|v: int|
        0 <= v < old.dfn@.len() && old.dfn@[v] != 0 ==> #[trigger] new.low@[v] == old.low@[v]
    &&& forall|v: int|
        0 <= v < old.dfn@.len() && old.dfn@[v] == 0 && #[trigger] new.dfn@[v] != 0 ==> new.dfn@[v]
            > old.dfn_cnt
    &&& forall|v: int|
        0 <= v < old.dfn@.len() && old.owner@[v] >= 0 ==> #[trigger] new.owner@[v] == old.owner@[v]
    &&& old.stack@.len() <= new.stack@.len()
    &&& forall|i: int| 0 <= i < old.stack@.len() ==> #[trigger] new.stack@[i] == old.stack@[i]
    &&& old.scc@.len() <= new.scc@.len()
    &&& unvisited(numbered(new.dfn@)) <= unvisited(numbered(old.dfn@))
}

/// What holds while the walk is at `u`, which stands at place `p` of the
/// stack, with the first `k` of its edges followed.
spec fn at_vertex(c0: TarjanContext, c: TarjanContext, adj: Seq<Seq<usize>>, u: usize, p: int, k: int) -> bool {
    &&& c.inv(adj)
    &&& extends(c0, c)
    &&& unvisited(numbered(c.dfn@)) < unvisited(numbered(c0.dfn@))
    &&& 0 <= u < adj.len()
    &&& p == c0.stack@.len()
    &&& c.stack@.len() > p
    &&& c.stack@[p] == u
    &&& c0.dfn@[u as int] == 0
    &&& c.dfn@[u as int] == c0.dfn_cnt + 1
    &&& c.above(adj, u, p)
    &&& c.done(adj, u as int, k)
}

/// What holds when the walk has left `u`: either `u` and all above it went
/// into a component, or `u` stays on the stack knowing that it reaches a
/// vertex below itself.
spec fn left_vertex(c0: TarjanContext, c: TarjanContext, adj: Seq<Seq<usize>>, u: usize) -> bool {
    let p = c0.stack@.len() as int;
    &&& c.inv(adj)
    &&& extends(c0, c)
    &&& unvisited(numbered(c.dfn@)) < unvisited(numbered(c0.dfn@))
    &&& c.dfn@[u as int] == c0.dfn_cnt + 1
    &&& c.low@[u as int] <= c.dfn@[u as int]
    &&& (c.stack@.len() == p ==> c.low@[u as int] == c.dfn@[u as int] && c.owner@[u as int] >= 0)
    &&& (c.stack@.len() != p ==> c.stack@[p] == u && c.low@[u as int] < c.dfn@[u as int] && c.done(
        adj,
        u as int,
        adj[u as int].len() as int,
    ))
    &&& c.above(adj, u, p)
}

/// Whether `c` comes from `c0` by coming to `u`: `u` gets the next number
/// and goes onto the stack.
spec fn entered(c0: TarjanContext, c: TarjanContext, u: usize) -> bool {
    &&& c.dfn_cnt == c0.dfn_cnt + 1
    &&& c.dfn@ == c0.dfn@.update(u as int, c.dfn_cnt)
    &&& c.low@ == c0.low@.update(u as int, c.dfn_cnt)
    &&& c.stack@ == c0.stack@.push(u)
    &&& c.in_stack@ == c0.in_stack@.update(u as int, true)
    &&& c.scc@ == c0.scc@
    &&& c.owner@ == c0.owner@
}

/// Whether `c` is `c1` but for `u` knowing of the number `x`.
spec fn lowered(c1: TarjanContext, c: TarjanContext, u: usize, x: usize) -> bool {
    &&& c.dfn_cnt == c1.dfn_cnt
    &&& c.dfn@ == c1.dfn@
    &&& c.low@ == c1.low@.update(u as int, x)
    &&& c.stack@ == c1.stack@
    &&& c.in_stack@ == c1.in_stack@
    &&& c.scc@ == c1.scc@
    &&& c.owner@ == c1.owner@
}

/// A vertex without a number is on no stack and in no component.
proof fn lemma_fresh(c0: TarjanContext, adj: Seq<Seq<usize>>, u: usize)
    requires
        c0.inv(adj),
        0 <= u < adj.len(),
        c0.dfn@[u as int] == 0,
    ensures
        c0.owner@[u as int] == -1,
        !c0.in_stack@[u as int],
        forall|i: int| 0 <= i < c0.stack@.len() ==> #[trigger] c0.stack@[i] != u,
        c0.dfn_cnt < adj.len(),
{
    reveal(sizes);
    reveal(stack_ok);
    reveal(comps_ok);
    lemma_unvisited_mark(numbered(c0.dfn@), u as int);
    if c0.in_stack@[u as int] {
        assert(on_stack(c0.stack@, u as int));
        let i = choose|i: int| 0 <= i < c0.stack@.len() && #[trigger] c0.stack@[i] == u;
        assert(c0.dfn@[c0.stack@[i] as int] != 0);
    }
    assert forall|i: int| 0 <= i < c0.stack@.len() implies #[trigger] c0.stack@[i] != u by {
        assert(c0.dfn@[c0.stack@[i] as int] != 0);
    }
}

/// Coming to a vertex keeps the lists as long as they were and the numbers
/// in step with the count.
proof fn lemma_enter_sizes(c0: TarjanContext, c: TarjanContext, adj: Seq<Seq<usize>>, u: usize)
    requires
        c0.inv(adj),
        0 <= u < adj.len(),
        c0.dfn@[u as int] == 0,
        entered(c0, c, u),
    ensures
        sizes(c.dfn_cnt, c.dfn@, c.low@, c.in_stack@, c.owner@, adj.len()),
        unvisited(numbered(c.dfn@)) < unvisited(numbered(c0.dfn@)),
{
    reveal(sizes);
    lemma_unvisited_mark(numbered(c0.dfn@), u as int);
    assert(numbered(c.dfn@) =~= numbered(c0.dfn@).update(u as int, true));
    assert forall|v: int| 0 <= v < adj.len() implies #[trigger] c.dfn@[v] <= c.dfn_cnt by {
        assert(c0.dfn@[v] <= c0.dfn_cnt);
    }
}

/// Coming to a vertex keeps the stack in the order of the numbers.
proof fn lemma_enter_stack(c0: TarjanContext, c: TarjanContext, adj: Seq<Seq<usize>>, u: usize)
    requires
        c0.inv(adj),
        0 <= u < adj.len(),
        c0.dfn@[u as int] == 0,
        entered(c0, c, u),
    ensures
        stack_ok(c.stack@, c.dfn@, c.low@, c.in_stack@, c.owner@, adj.len()),
{
    lemma_fresh(c0, adj, u);
    reveal(sizes);
    reveal(stack_ok);
    let n = adj.len();
    let p = c0.stack@.len() as int;
    let s = c.stack@;
    assert forall|i: int| 0 <= i < s.len() implies #[trigger] s[i] < n && c.dfn@[s[i] as int] != 0
        && c.in_stack@[s[i] as int] && c.owner@[s[i] as int] == -1 && c.low@[s[i] as int]
        <= c.dfn@[s[i] as int] by {
        if i < p {
            assert(s[i] == c0.stack@[i]);
            assert(c0.stack@[i] != u);
        }
    }
    assert forall|i: int, j: int| 0 <= i < j < s.len() implies c.dfn@[#[trigger] s[i] as int]
        < c.dfn@[#[trigger] s[j] as int] by {
        assert(s[i] == c0.stack@[i]);
        assert(c0.stack@[i] != u);
        if j < p {
            assert(s[j] == c0.stack@[j]);
            assert(c0.stack@[j] != u);
        } else {
            assert(c0.dfn@[c0.stack@[i] as int] <= c0.dfn_cnt);
        }
    }
    assert forall|v: int| 0 <= v < n && #[trigger] c.in_stack@[v] implies on_stack(s, v) by {
        if v == u {
            assert(s[p] == v);
        } else {
            assert(on_stack(c0.stack@, v));
            let i = choose|i: int| 0 <= i < c0.stack@.len() && #[trigger] c0.stack@[i] == v;
            assert(s[i] == v);
        }
    }
}

/// Coming to a vertex keeps every vertex on the stack linked to one no
/// higher.
proof fn lemma_enter_low(c0: TarjanContext, c: TarjanContext, adj: Seq<Seq<usize>>, u: usize)
    requires
        c0.inv(adj),
        0 <= u < adj.len(),
        c0.dfn@[u as int] == 0,
        entered(c0, c, u),
    ensures
        low_ok(c.stack@, c.dfn@, c.low@, adj),
{
    lemma_fresh(c0, adj, u);
    reveal(low_ok);
    reveal(sizes);
    reveal(stack_ok);
    let p = c0.stack@.len() as int;
    let s = c.stack@;
    lemma_reaches_self(adj, u as int);
    assert forall|i: int| 0 <= i < s.len() implies #[trigger] linked(s, c.dfn@, c.low@, adj, i) by {
        if i < p {
            assert(linked(c0.stack@, c0.dfn@, c0.low@, adj, i));
            let j = choose|j: int| #[trigger] links(c0.stack@, c0.dfn@, c0.low@, adj, i, j);
            assert(s[i] == c0.stack@[i]);
            assert(c0.stack@[i] != u);
            assert(s[j] == c0.stack@[j]);
            assert(c0.stack@[j] != u);
            assert(links(s, c.dfn@, c.low@, adj, i, j));
        } else {
            assert(links(s, c.dfn@, c.low@, adj, p, p));
        }
    }
}

/// Coming to a vertex that all of the stack reaches keeps the stack a
/// chain.
proof fn lemma_enter_chain(c0: TarjanContext, c: TarjanContext, adj: Seq<Seq<usize>>, u: usize)
    requires
        c0.inv(adj),
        0 <= u < adj.len(),
        forall|i: int| 0 <= i < c0.stack@.len() ==> reaches(adj, #[trigger] c0.stack@[i] as int, u as int),
        entered(c0, c, u),
    ensures
        chain_ok(c.stack@, adj),
{
    reveal(chain_ok);
    let p = c0.stack@.len() as int;
    let s = c.stack@;
    assert forall|i: int, j: int| 0 <= i < j < s.len() implies reaches(
        adj,
        #[trigger] s[i] as int,
        #[trigger] s[j] as int,
    ) by {
        assert(s[i] == c0.stack@[i]);
        if j < p {
            assert(s[j] == c0.stack@[j]);
        }
    }
}

/// Coming to a vertex leaves the components as they were.
proof fn lemma_enter_comps(c0: TarjanContext, c: TarjanContext, adj: Seq<Seq<usize>>, u: usize)
    requires
        c0.inv(adj),
        0 <= u < adj.len(),
        c0.dfn@[u as int] == 0,
        entered(c0, c, u),
    ensures
        comps_ok(parts_of(c.scc@), c.owner@, c.dfn@, c.in_stack@, adj.len()),
{
    lemma_fresh(c0, adj, u);
    reveal(comps_ok);
    reveal(sizes);
    let n = adj.len();
    assert forall|v: int|
        0 <= v < n && #[trigger] c.dfn@[v] != 0 && !c.in_stack@[v] implies c.owner@[v] >= 0 by {
        assert(c0.dfn@[v] != 0);
    }
    assert forall|v: int| 0 <= v < n && #[trigger] c.owner@[v] >= 0 implies c.dfn@[v] != 0
        && !c.in_stack@[v] by {
        assert(c0.owner@[v] >= 0);
    }
}

/// Coming to a vertex is going on with the search.
proof fn lemma_enter_extends(c0: TarjanContext, c: TarjanContext, adj: Seq<Seq<usize>>, u: usize)
    requires
        c0.inv(adj),
        0 <= u < adj.len(),
        c0.dfn@[u as int] == 0,
        entered(c0, c, u),
    ensures
        extends(c0, c),
{
    reveal(extends);
    reveal(sizes);
    lemma_enter_sizes(c0, c, adj, u);
    assert forall|v: int|
        0 <= v < c0.dfn@.len() && c0.dfn@[v] == 0 && #[trigger] c.dfn@[v] != 0 implies c.dfn@[v]
        > c0.dfn_cnt by {}
}

/// Coming to a vertex that has no number yet keeps what has to hold.
proof fn lemma_enter(c0: TarjanContext, c: TarjanContext, adj: Seq<Seq<usize>>, u: usize)
    requires
        c0.inv(adj),
        0 <= u < adj.len(),
        c0.dfn@[u as int] == 0,
        forall|i: int| 0 <= i < c0.stack@.len() ==> reaches(adj, #[trigger] c0.stack@[i] as int, u as int),
        entered(c0, c, u),
    ensures
        at_vertex(c0, c, adj, u, c0.stack@.len() as int, 0),
{
    lemma_enter_sizes(c0, c, adj, u);
    lemma_enter_stack(c0, c, adj, u);
    lemma_enter_low(c0, c, adj, u);
    lemma_enter_chain(c0, c, adj, u);
    lemma_enter_comps(c0, c, adj, u);
    lemma_enter_extends(c0, c, adj, u);
    assert(c.dfn@[u as int] == c0.dfn_cnt + 1 && c.dfn@.len() == adj.len()) by {
        reveal(sizes);
    }
    assert(c.stack@[c0.stack@.len() as int] == u);
    assert(c.above(adj, u, c0.stack@.len() as int)) by {
        reveal(above_ok);
    }
    assert(c.done(adj, u as int, 0)) by {
        reveal(edges_done);
    }
}

/// Going on twice is going on.
proof fn lemma_extends_trans(a: TarjanContext, b: TarjanContext, c: TarjanContext)
    requires
        extends(a, b),
        extends(b, c),
    ensures
        extends(a, c),
{
    reveal(extends);
    assert forall|v: int| 0 <= v < a.dfn@.len() && a.dfn@[v] != 0 implies #[trigger] c.dfn@[v]
        == a.dfn@[v] by {
        assert(b.dfn@[v] == a.dfn@[v]);
    }
    assert forall|v: int| 0 <= v < a.dfn@.len() && a.dfn@[v] != 0 implies #[trigger] c.low@[v]
        == a.low@[v] by {
        assert(b.dfn@[v] == a.dfn@[v]);
        assert(b.low@[v] == a.low@[v]);
    }
    assert forall|v: int|
        0 <= v < a.dfn@.len() && a.dfn@[v] == 0 && #[trigger] c.dfn@[v] != 0 implies c.dfn@[v]
        > a.dfn_cnt by {
        if b.dfn@[v] != 0 {
            assert(c.dfn@[v] == b.dfn@[v]);
        }
    }
    assert forall|v: int| 0 <= v < a.dfn@.len() && a.owner@[v] >= 0 implies #[trigger] c.owner@[v]
        == a.owner@[v] by {
        assert(b.owner@[v] == a.owner@[v]);
    }
    assert forall|i: int| 0 <= i < a.stack@.len() implies #[trigger] c.stack@[i]
        == a.stack@[i] by {
        assert(b.stack@[i] == a.stack@[i]);
    }
}

/// On a stack whose vertices above place `p` each know that they reach a
/// vertex below themselves, every vertex from place `p` up reaches the
/// vertex at place `p`.
proof fn lemma_reach_down(c: TarjanContext, adj: Seq<Seq<usize>>, u: usize, p: int, i: int)
    requires
        c.inv(adj),
        c.above(adj, u, p),
        0 <= p <= i < c.stack@.len(),
    ensures
        reaches(adj, c.stack@[i] as int, c.stack@[p] as int),
    decreases i,
{
    let s = c.stack@;
    if i == p {
        reveal(stack_ok);
        lemma_reaches_self(adj, s[p] as int);
    } else {
        assert(linked(s, c.dfn@, c.low@, adj, i)) by {
            reveal(low_ok);
        }
        let j = choose|j: int| #[trigger] links(s, c.dfn@, c.low@, adj, i, j);
        assert(c.low@[s[i] as int] < c.dfn@[s[i] as int]) by {
            reveal(above_ok);
        }
        if j >= p {
            lemma_reach_down(c, adj, u, p, j);
        } else {
            assert(reaches(adj, s[j] as int, s[p] as int)) by {
                reveal(chain_ok);
            }
        }
        crate::graph::lemma_reaches_trans(adj, s[i] as int, s[j] as int, s[p] as int);
    }
}

/// A vertex on the stack whose number is no less than that of the vertex
/// at place `p` stands at place `p` or above.
proof fn lemma_place(c: TarjanContext, adj: Seq<Seq<usize>>, p: int, z: int) -> (i: int)
    requires
        c.inv(adj),
        0 <= p < c.stack@.len(),
        0 <= z < adj.len(),
        c.in_stack@[z],
        c.dfn@[z] >= c.dfn@[c.stack@[p] as int],
    ensures
        p <= i < c.stack@.len(),
        c.stack@[i] == z,
{
    reveal(stack_ok);
    let s = c.stack@;
    assert(on_stack(s, z));
    let i = choose|i: int| 0 <= i < s.len() && #[trigger] s[i] == z;
    if i < p {
        assert(c.dfn@[s[i] as int] < c.dfn@[s[p] as int]);
    }
    i
}

/// A vertex on the stack whose number is less than that of the vertex at
/// place `p` stands below place `p`.
proof fn lemma_place_below(c: TarjanContext, adj: Seq<Seq<usize>>, p: int, j: int)
    requires
        c.inv(adj),
        0 <= p < c.stack@.len(),
        0 <= j < c.stack@.len(),
        c.dfn@[c.stack@[j] as int] < c.dfn@[c.stack@[p] as int],
    ensures
        j < p,
{
    reveal(stack_ok);
    let s = c.stack@;
    if j > p {
        assert(c.dfn@[s[p] as int] < c.dfn@[s[j] as int]);
    }
}

/// Before the walk goes on from `u` to a vertex `v` without a number,
/// every vertex on the stack reaches `v`.
proof fn lemma_call_pre(c0: TarjanContext, c1: TarjanContext, adj: Seq<Seq<usize>>, u: usize, p: int, k: int, v: usize)
    requires
        at_vertex(c0, c1, adj, u, p, k),
        forall|i: int| 0 <= i < p ==> reaches(adj, #[trigger] c0.stack@[i] as int, u as int),
        edge(adj, u as int, v as int),
    ensures
        forall|i: int| 0 <= i < c1.stack@.len() ==> reaches(adj, #[trigger] c1.stack@[i] as int, v as int),
{
    assert forall|i: int| 0 <= i < c1.stack@.len() implies reaches(
        adj,
        #[trigger] c1.stack@[i] as int,
        v as int,
    ) by {
        if i < p {
            assert(c1.stack@[i] == c0.stack@[i]) by {
                reveal(extends);
            }
        } else {
            lemma_reach_down(c1, adj, u, p, i);
        }
        crate::graph::lemma_reaches_step(adj, c1.stack@[i] as int, u as int, v as int);
    }
}

/// The places of the stack hold different vertices.
proof fn lemma_stack_distinct(c: TarjanContext, adj: Seq<Seq<usize>>, i: int, j: int)
    requires
        c.inv(adj),
        0 <= i < c.stack@.len(),
        0 <= j < c.stack@.len(),
        c.stack@[i] == c.stack@[j],
    ensures
        i == j,
{
    reveal(stack_ok);
    let s = c.stack@;
    if i < j {
        assert(c.dfn@[s[i] as int] < c.dfn@[s[j] as int]);
    } else if j < i {
        assert(c.dfn@[s[j] as int] < c.dfn@[s[i] as int]);
    }
}

/// Different places of the stack hold different vertices.
proof fn lemma_stack_differ(c: TarjanContext, adj: Seq<Seq<usize>>, i: int, j: int)
    requires
        c.inv(adj),
        0 <= i < c.stack@.len(),
        0 <= j < c.stack@.len(),
        i != j,
    ensures
        c.stack@[i] != c.stack@[j],
{
    if c.stack@[i] == c.stack@[j] {
        lemma_stack_distinct(c, adj, i, j);
    }
}

/// Edges that are settled stay settled when the search goes on and the
/// vertex they come from learns of no greater number.
proof fn lemma_edges_stable(a: TarjanContext, b: TarjanContext, adj: Seq<Seq<usize>>, y: int, upto: int)
    requires
        closed_graph(adj),
        a.inv(adj),
        b.inv(adj),
        0 <= y < adj.len(),
        0 <= upto <= adj[y].len(),
        a.done(adj, y, upto),
        b.low@[y] <= a.low@[y],
        forall|z: int| 0 <= z < adj.len() && a.dfn@[z] != 0 ==> #[trigger] b.dfn@[z] == a.dfn@[z],
        forall|z: int| 0 <= z < adj.len() && a.owner@[z] >= 0 ==> #[trigger] b.owner@[z] == a.owner@[z],
    ensures
        b.done(adj, y, upto),
{
    reveal(edges_done);
    reveal(sizes);
    assert forall|k: int| 0 <= k < upto implies b.owner@[#[trigger] adj[y][k] as int] >= 0 || (
    b.in_stack@[adj[y][k] as int] && b.low@[y] <= b.dfn@[adj[y][k] as int]) by {
        let z = adj[y][k] as int;
        assert(0 <= z < adj.len());
        if a.owner@[z] >= 0 {
            assert(b.owner@[z] == a.owner@[z]);
        } else {
            assert(a.in_stack@[z] && a.low@[y] <= a.dfn@[z]);
            assert(a.dfn@[z] != 0) by {
                reveal(stack_ok);
                assert(on_stack(a.stack@, z));
                let i = choose|i: int| 0 <= i < a.stack@.len() && #[trigger] a.stack@[i] == z;
                assert(a.dfn@[a.stack@[i] as int] != 0);
            }
            assert(b.dfn@[z] == a.dfn@[z]);
            if !b.in_stack@[z] {
                assert(b.owner@[z] >= 0) by {
                    reveal(comps_ok);
                }
            }
        }
    }
}

/// Letting the vertex at place `p` know of a lesser number, that of a
/// vertex no higher on the stack which it reaches, keeps what has to hold.
proof fn lemma_lowered_inv(c1: TarjanContext, c3: TarjanContext, adj: Seq<Seq<usize>>, u: usize, p: int, x: usize, j: int)
    requires
        c1.inv(adj),
        lowered(c1, c3, u, x),
        0 <= p < c1.stack@.len(),
        c1.stack@[p] == u,
        x <= c1.low@[u as int],
        links(c1.stack@, c1.dfn@, c3.low@, adj, p, j),
    ensures
        c3.inv(adj),
{
    let s = c1.stack@;
    assert(u < adj.len() && c1.low@.len() == adj.len()) by {
        reveal(stack_ok);
        reveal(sizes);
    }
    assert(sizes(c3.dfn_cnt, c3.dfn@, c3.low@, c3.in_stack@, c3.owner@, adj.len())) by {
        reveal(sizes);
    }
    assert(stack_ok(c3.stack@, c3.dfn@, c3.low@, c3.in_stack@, c3.owner@, adj.len())) by {
        reveal(stack_ok);
        assert forall|i: int| 0 <= i < s.len() implies c3.low@[#[trigger] s[i] as int]
            <= c3.dfn@[s[i] as int] by {
            if s[i] == u {
            } else {
                assert(c3.low@[s[i] as int] == c1.low@[s[i] as int]);
            }
        }
    }
    assert(low_ok(c3.stack@, c3.dfn@, c3.low@, adj)) by {
        reveal(low_ok);
        assert forall|i: int| 0 <= i < s.len() implies #[trigger] linked(
            s,
            c3.dfn@,
            c3.low@,
            adj,
            i,
        ) by {
            if i == p {
                assert(links(s, c3.dfn@, c3.low@, adj, p, j));
            } else {
                lemma_stack_differ(c1, adj, i, p);
                assert(s[i] < adj.len()) by {
                    reveal(stack_ok);
                }
                assert(linked(s, c1.dfn@, c1.low@, adj, i));
                let w = choose|w: int| #[trigger] links(s, c1.dfn@, c1.low@, adj, i, w);
                assert(links(s, c3.dfn@, c3.low@, adj, i, w));
            }
        }
    }
}

/// After the walk has gone on from `u` along its edge `k` to a vertex
/// without a number and has come back, and `u` has taken over the lesser
/// number that the vertex knows of: the edge is settled.
proof fn lemma_after_tree(
    c0: TarjanContext,
    c1: TarjanContext,
    c2: TarjanContext,
    c3: TarjanContext,
    adj: Seq<Seq<usize>>,
    u: usize,
    p: int,
    k: int,
    v: usize,
)
    requires
        closed_graph(adj),
        at_vertex(c0, c1, adj, u, p, k),
        0 <= k < adj[u as int].len(),
        adj[u as int][k] == v,
        v < adj.len(),
        c1.dfn@[v as int] == 0,
        left_vertex(c1, c2, adj, v),
        lowered(
            c2,
            c3,
            u,
            if c2.low@[u as int] > c2.low@[v as int] {
                c2.low@[v as int]
            } else {
                c2.low@[u as int]
            },
        ),
    ensures
        at_vertex(c0, c3, adj, u, p, k + 1),
{
    let n = adj.len();
    let q = c1.stack@.len() as int;
    let x = c3.low@[u as int];
    assert(c1.dfn@.len() == n && c2.dfn@.len() == n && c2.low@.len() == n && c1.low@.len() == n
        && c1.dfn@[u as int] <= c1.dfn_cnt) by {
        reveal(sizes);
    }
    assert(c1.dfn@[u as int] != 0);
    assert(c2.stack@[p] == u && c2.dfn@[u as int] == c1.dfn@[u as int] && c2.low@[u as int]
        == c1.low@[u as int] && c2.stack@.len() >= q) by {
        reveal(extends);
    }
    assert(c2.low@[u as int] <= c2.dfn@[u as int]) by {
        reveal(stack_ok);
    }
    assert(edge(adj, u as int, v as int));
    // The state after: what has to hold.
    if c2.low@[u as int] > c2.low@[v as int] {
        assert(c2.stack@.len() != q);
        assert(linked(c2.stack@, c2.dfn@, c2.low@, adj, q)) by {
            reveal(low_ok);
        }
        let j = choose|j: int| #[trigger] links(c2.stack@, c2.dfn@, c2.low@, adj, q, j);
        lemma_place_below(c2, adj, p, j);
        lemma_reaches_first(adj, u as int, v as int, c2.stack@[j] as int);
        assert(links(c2.stack@, c2.dfn@, c3.low@, adj, p, j));
        lemma_lowered_inv(c2, c3, adj, u, p, x, j);
    } else {
        assert(linked(c2.stack@, c2.dfn@, c2.low@, adj, p)) by {
            reveal(low_ok);
        }
        let j = choose|j: int| #[trigger] links(c2.stack@, c2.dfn@, c2.low@, adj, p, j);
        assert(c3.low@ =~= c2.low@);
        assert(links(c2.stack@, c2.dfn@, c3.low@, adj, p, j));
        lemma_lowered_inv(c2, c3, adj, u, p, x, j);
    }
    // The search has gone on.
    lemma_extends_trans(c0, c1, c2);
    assert(extends(c0, c3)) by {
        reveal(extends);
        assert forall|w: int| 0 <= w < c0.dfn@.len() && c0.dfn@[w] != 0 implies #[trigger] c3.low@[w]
            == c0.low@[w] by {
            assert(c2.low@[w] == c0.low@[w]);
        }
    }
    // Facts used below.
    assert forall|z: int| 0 <= z < n && c1.dfn@[z] != 0 implies #[trigger] c3.dfn@[z]
        == c1.dfn@[z] by {
        reveal(extends);
    }
    assert forall|z: int| 0 <= z < n && c1.owner@[z] >= 0 implies #[trigger] c3.owner@[z]
        == c1.owner@[z] by {
        reveal(extends);
        reveal(sizes);
    }
    // The vertices above `u`.
    assert(c3.above(adj, u, p)) by {
        assert forall|i: int| p < i < c3.stack@.len() implies {
            &&& x <= c3.low@[#[trigger] c3.stack@[i] as int]
            &&& c3.low@[c3.stack@[i] as int] < c3.dfn@[c3.stack@[i] as int]
            &&& c3.done(adj, c3.stack@[i] as int, adj[c3.stack@[i] as int].len() as int)
        } by {
            let y = c3.stack@[i];
            lemma_stack_differ(c2, adj, i, p);
            assert(y < n) by {
                reveal(stack_ok);
            }
            if i < q {
                assert(c1.stack@[i] == y) by {
                    reveal(extends);
                }
                assert(c1.low@[u as int] <= c1.low@[y as int] && c1.low@[y as int]
                    < c1.dfn@[y as int] && c1.done(adj, y as int, adj[y as int].len() as int)) by {
                    reveal(above_ok);
                }
                assert(c2.low@[y as int] == c1.low@[y as int] && c2.dfn@[y as int]
                    == c1.dfn@[y as int]) by {
                    reveal(extends);
                    reveal(stack_ok);
                    assert(c1.dfn@[c1.stack@[i] as int] != 0);
                }
                lemma_edges_stable(c1, c3, adj, y as int, adj[y as int].len() as int);
            } else {
                assert(c2.low@[v as int] <= c2.low@[y as int] && c2.low@[y as int]
                    < c2.dfn@[y as int] && c2.done(adj, y as int, adj[y as int].len() as int)) by {
                    reveal(above_ok);
                    if i == q {
                        assert(c2.stack@[q] == v);
                    }
                }
                lemma_edges_stable(c2, c3, adj, y as int, adj[y as int].len() as int);
            }
        }
        reveal(above_ok);
    }
    // The edges of `u`.
    assert(c3.done(adj, u as int, k + 1)) by {
        lemma_edges_stable(c1, c3, adj, u as int, k);
        reveal(edges_done);
        if c2.stack@.len() == q {
            assert(c3.owner@[v as int] >= 0);
        } else {
            assert(c2.stack@[q] == v);
            assert(c3.in_stack@[v as int] && c2.low@[v as int] <= c2.dfn@[v as int]) by {
                reveal(stack_ok);
            }
            lemma_stack_differ(c2, adj, q, p);
        }
    }
    assert(unvisited(numbered(c3.dfn@)) < unvisited(numbered(c0.dfn@)));
}

/// After `u` has looked along its edge `k` at a vertex on the stack and
/// has taken over its number if that is less: the edge is settled.
proof fn lemma_after_back(
    c0: TarjanContext,
    c1: TarjanContext,
    c3: TarjanContext,
    adj: Seq<Seq<usize>>,
    u: usize,
    p: int,
    k: int,
    v: usize,
)
    requires
        closed_graph(adj),
        at_vertex(c0, c1, adj, u, p, k),
        0 <= k < adj[u as int].len(),
        adj[u as int][k] == v,
        v < adj.len(),
        c1.in_stack@[v as int],
        lowered(
            c1,
            c3,
            u,
            if c1.low@[u as int] > c1.dfn@[v as int] {
                c1.dfn@[v as int]
            } else {
                c1.low@[u as int]
            },
        ),
    ensures
        at_vertex(c0, c3, adj, u, p, k + 1),
{
    let n = adj.len();
    let x = c3.low@[u as int];
    assert(c1.dfn@.len() == n && c1.low@.len() == n) by {
        reveal(sizes);
    }
    assert(c1.low@[u as int] <= c1.dfn@[u as int]) by {
        reveal(stack_ok);
    }
    assert(edge(adj, u as int, v as int));
    if c1.low@[u as int] > c1.dfn@[v as int] {
        assert(on_stack(c1.stack@, v as int)) by {
            reveal(stack_ok);
        }
        let j = choose|j: int| 0 <= j < c1.stack@.len() && #[trigger] c1.stack@[j] == v;
        lemma_place_below(c1, adj, p, j);
        lemma_reaches_self(adj, v as int);
        lemma_reaches_first(adj, u as int, v as int, v as int);
        assert(links(c1.stack@, c1.dfn@, c3.low@, adj, p, j));
        lemma_lowered_inv(c1, c3, adj, u, p, x, j);
    } else {
        assert(linked(c1.stack@, c1.dfn@, c1.low@, adj, p)) by {
            reveal(low_ok);
        }
        let j = choose|j: int| #[trigger] links(c1.stack@, c1.dfn@, c1.low@, adj, p, j);
        assert(c3.low@ =~= c1.low@);
        assert(links(c1.stack@, c1.dfn@, c3.low@, adj, p, j));
        lemma_lowered_inv(c1, c3, adj, u, p, x, j);
    }
    assert(extends(c0, c3)) by {
        reveal(extends);
    }
    assert(c3.above(adj, u, p)) by {
        assert forall|i: int| p < i < c3.stack@.len() implies {
            &&& x <= c3.low@[#[trigger] c3.stack@[i] as int]
            &&& c3.low@[c3.stack@[i] as int] < c3.dfn@[c3.stack@[i] as int]
            &&& c3.done(adj, c3.stack@[i] as int, adj[c3.stack@[i] as int].len() as int)
        } by {
            let y = c3.stack@[i];
            lemma_stack_differ(c1, adj, i, p);
            assert(y < n) by {
                reveal(stack_ok);
            }
            assert(c1.low@[u as int] <= c1.low@[y as int] && c1.low@[y as int] < c1.dfn@[y as int]
                && c1.done(adj, y as int, adj[y as int].len() as int)) by {
                reveal(above_ok);
            }
            lemma_edges_stable(c1, c3, adj, y as int, adj[y as int].len() as int);
        }
        reveal(above_ok);
    }
    assert(c3.done(adj, u as int, k + 1)) by {
        lemma_edges_stable(c1, c3, adj, u as int, k);
        reveal(edges_done);
    }
}

/// An edge of `u` to a vertex that has its component is settled.
proof fn lemma_after_skip(c0: TarjanContext, c1: TarjanContext, adj: Seq<Seq<usize>>, u: usize, p: int, k: int, v: usize)
    requires
        at_vertex(c0, c1, adj, u, p, k),
        0 <= k < adj[u as int].len(),
        adj[u as int][k] == v,
        v < adj.len(),
        c1.dfn@[v as int] != 0,
        !c1.in_stack@[v as int],
    ensures
        at_vertex(c0, c1, adj, u, p, k + 1),
{
    reveal(edges_done);
    reveal(comps_ok);
}

/// When all edges of `u` are followed and `u` knows of a lesser number
/// than its own, the walk leaves it on the stack.
proof fn lemma_keep(c0: TarjanContext, c: TarjanContext, adj: Seq<Seq<usize>>, u: usize, p: int)
    requires
        at_vertex(c0, c, adj, u, p, adj[u as int].len() as int),
        c.dfn@[u as int] != c.low@[u as int],
    ensures
        left_vertex(c0, c, adj, u),
{
    reveal(stack_ok);
}

/// Whether `v` stands on the stack at place `p` or above.
spec fn on_stack_from(s: Seq<usize>, p: int, v: int) -> bool {
    exists|i: int| p <= i < s.len() && #[trigger] s[i] == v
}

/// Whether `c4` comes from `c3` by taking the stack from place `p` up off
/// as a component.
spec fn popped(c3: TarjanContext, c4: TarjanContext, p: int) -> bool {
    let s = c3.stack@;
    let index = c3.scc@.len() as int;
    &&& c4.dfn_cnt == c3.dfn_cnt
    &&& c4.dfn@ == c3.dfn@
    &&& c4.low@ == c3.low@
    &&& c4.stack@ == s.subrange(0, p)
    &&& c4.in_stack@.len() == c3.in_stack@.len()
    &&& forall|v: int|
        0 <= v < c4.in_stack@.len() ==> (#[trigger] c4.in_stack@[v] == (c3.in_stack@[v]
            && !on_stack_from(s, p, v)))
    &&& c4.scc@.len() == index + 1
    &&& forall|c: int| 0 <= c < index ==> #[trigger] c4.scc@[c] == c3.scc@[c]
    &&& c4.scc@[index]@.len() == s.len() - p
    &&& forall|i: int|
        0 <= i < s.len() - p ==> #[trigger] c4.scc@[index]@[i] == s[s.len() - 1 - i]
    &&& c4.owner@.len() == c3.owner@.len()
    &&& forall|v: int|
        0 <= v < c4.owner@.len() ==> #[trigger] c4.owner@[v] == (if on_stack_from(s, p, v) {
            index
        } else {
            c3.owner@[v]
        })
}

/// Taking the top of the stack off keeps the rest of the stack as it has
/// to be.
proof fn lemma_emit_basic(c3: TarjanContext, c4: TarjanContext, adj: Seq<Seq<usize>>, p: int)
    requires
        c3.inv(adj),
        0 <= p < c3.stack@.len(),
        popped(c3, c4, p),
    ensures
        sizes(c4.dfn_cnt, c4.dfn@, c4.low@, c4.in_stack@, c4.owner@, adj.len()),
        stack_ok(c4.stack@, c4.dfn@, c4.low@, c4.in_stack@, c4.owner@, adj.len()),
        low_ok(c4.stack@, c4.dfn@, c4.low@, adj),
        chain_ok(c4.stack@, adj),
{
    let n = adj.len();
    let s = c3.stack@;
    let t = c4.stack@;
    assert(sizes(c4.dfn_cnt, c4.dfn@, c4.low@, c4.in_stack@, c4.owner@, n)) by {
        reveal(sizes);
    }
    assert(stack_ok(t, c4.dfn@, c4.low@, c4.in_stack@, c4.owner@, n)) by {
        reveal(stack_ok);
        reveal(sizes);
        assert forall|i: int| 0 <= i < t.len() implies #[trigger] t[i] < n && c4.dfn@[t[i] as int]
            != 0 && c4.in_stack@[t[i] as int] && c4.owner@[t[i] as int] == -1 && c4.low@[t[i] as int]
            <= c4.dfn@[t[i] as int] by {
            assert(t[i] == s[i]);
            if on_stack_from(s, p, t[i] as int) {
                let j = choose|j: int| p <= j < s.len() && #[trigger] s[j] == t[i];
                lemma_stack_distinct(c3, adj, i, j);
            }
        }
        assert forall|i: int, j: int| 0 <= i < j < t.len() implies c4.dfn@[#[trigger] t[i] as int]
            < c4.dfn@[#[trigger] t[j] as int] by {
            assert(t[i] == s[i] && t[j] == s[j]);
        }
        assert forall|v: int| 0 <= v < n && #[trigger] c4.in_stack@[v] implies on_stack(t, v) by {
            assert(on_stack(s, v));
            let i = choose|i: int| 0 <= i < s.len() && #[trigger] s[i] == v;
            if i >= p {
                assert(on_stack_from(s, p, v));
            }
            assert(t[i] == v);
        }
    }
    assert(low_ok(t, c4.dfn@, c4.low@, adj)) by {
        reveal(low_ok);
        assert forall|i: int| 0 <= i < t.len() implies #[trigger] linked(
            t,
            c4.dfn@,
            c4.low@,
            adj,
            i,
        ) by {
            assert(linked(s, c3.dfn@, c3.low@, adj, i));
            let j = choose|j: int| #[trigger] links(s, c3.dfn@, c3.low@, adj, i, j);
            assert(t[i] == s[i] && t[j] == s[j]);
            assert(links(t, c4.dfn@, c4.low@, adj, i, j));
        }
    }
    assert(chain_ok(t, adj)) by {
        reveal(chain_ok);
        assert forall|i: int, j: int| 0 <= i < j < t.len() implies reaches(
            adj,
            #[trigger] t[i] as int,
            #[trigger] t[j] as int,
        ) by {
            assert(t[i] == s[i] && t[j] == s[j]);
        }
    }
}

/// The vertices taken off the stack make a new component, next to the
/// components found before.
proof fn lemma_emit_comps(c3: TarjanContext, c4: TarjanContext, adj: Seq<Seq<usize>>, p: int)
    requires
        c3.inv(adj),
        0 <= p < c3.stack@.len(),
        popped(c3, c4, p),
    ensures
        comps_ok(parts_of(c4.scc@), c4.owner@, c4.dfn@, c4.in_stack@, adj.len()),
{
    reveal(comps_ok);
    reveal(sizes);
    reveal(stack_ok);
    let n = adj.len();
    let s = c3.stack@;
    let index = c3.scc@.len() as int;
    let old = parts_of(c3.scc@);
    let new = parts_of(c4.scc@);
    assert forall|c: int| 0 <= c < index implies #[trigger] new[c] == old[c] by {
        assert(c4.scc@[c] == c3.scc@[c]);
    }
    assert forall|v: int|
        0 <= v < n && #[trigger] c4.dfn@[v] != 0 && !c4.in_stack@[v] implies c4.owner@[v] >= 0 by {
        if !on_stack_from(s, p, v) {
            assert(!c3.in_stack@[v]);
        }
    }
    assert forall|v: int| 0 <= v < n && #[trigger] c4.owner@[v] >= 0 implies c4.dfn@[v] != 0
        && !c4.in_stack@[v] by {
        if on_stack_from(s, p, v) {
            let i = choose|i: int| p <= i < s.len() && #[trigger] s[i] == v;
            assert(c3.dfn@[s[i] as int] != 0);
        }
    }
    assert forall|c: int, i: int| 0 <= c < new.len() && 0 <= i < new[c].len() implies (
    #[trigger] new[c][i]) < n && c4.owner@[new[c][i] as int] == c by {
        if c < index {
            let v = old[c][i];
            assert(v < n && c3.owner@[v as int] == c);
            if on_stack_from(s, p, v as int) {
                let j = choose|j: int| p <= j < s.len() && #[trigger] s[j] == v;
                assert(c3.owner@[s[j] as int] == -1);
            }
        } else {
            assert(new[c][i] == s[s.len() - 1 - i]);
            assert(on_stack_from(s, p, new[c][i] as int));
        }
    }
    assert forall|v: int| 0 <= v < n && #[trigger] c4.owner@[v] >= 0 implies exists|i: int|
        0 <= i < new[c4.owner@[v]].len() && #[trigger] new[c4.owner@[v]][i] == v by {
        if on_stack_from(s, p, v) {
            let j = choose|j: int| p <= j < s.len() && #[trigger] s[j] == v;
            assert(new[index][s.len() - 1 - j] == v);
        } else {
            let i = choose|i: int|
                0 <= i < old[c3.owner@[v]].len() && #[trigger] old[c3.owner@[v]][i] == v;
            assert(new[c3.owner@[v]][i] == v);
        }
    }
    assert forall|c: int, i: int, j: int|
        0 <= c < new.len() && 0 <= i < j < new[c].len() implies (#[trigger] new[c][i]) != (
    #[trigger] new[c][j]) by {
        if c < index {
            assert(old[c][i] != old[c][j]);
        } else {
            lemma_stack_differ(c3, adj, s.len() - 1 - i, s.len() - 1 - j);
        }
    }
    assert forall|c: int| 0 <= c < new.len() implies (#[trigger] new[c]).len() > 0 by {
        if c < index {
            assert(old[c].len() > 0);
        }
    }
}

/// The new component is strongly connected, and its edges lead into it or
/// into components found before.
proof fn lemma_emit_conn(c0: TarjanContext, c3: TarjanContext, c4: TarjanContext, adj: Seq<Seq<usize>>, u: usize, p: int)
    requires
        closed_graph(adj),
        at_vertex(c0, c3, adj, u, p, adj[u as int].len() as int),
        c3.dfn@[u as int] == c3.low@[u as int],
        popped(c3, c4, p),
    ensures
        conn_ok(c4.owner@, adj),
{
    let n = adj.len();
    let s = c3.stack@;
    let index = c3.scc@.len() as int;
    assert(c3.owner@.len() == n && c3.dfn@.len() == n && c3.low@.len() == n) by {
        reveal(sizes);
    }
    assert forall|a: int, b: int|
        0 <= a < n && 0 <= b < n && c4.owner@[a] >= 0 && #[trigger] c4.owner@[a]
            == #[trigger] c4.owner@[b] implies reaches(adj, a, b) by {
        if on_stack_from(s, p, a) {
            let i = choose|i: int| p <= i < s.len() && #[trigger] s[i] == a;
            assert(on_stack_from(s, p, b)) by {
                reveal(comps_ok);
            }
            let j = choose|j: int| p <= j < s.len() && #[trigger] s[j] == b;
            lemma_reach_down(c3, adj, u, p, i);
            if j == p {
            } else {
                assert(reaches(adj, s[p] as int, s[j] as int)) by {
                    reveal(chain_ok);
                }
                crate::graph::lemma_reaches_trans(adj, a, s[p] as int, b);
            }
        } else {
            assert(!on_stack_from(s, p, b)) by {
                reveal(comps_ok);
            }
            assert(reaches(adj, a, b)) by {
                reveal(conn_ok);
            }
        }
    }
    assert forall|a: int, k: int|
        0 <= a < n && c4.owner@[a] >= 0 && 0 <= k < adj[a].len() implies 0 <= c4.owner@[
    #[trigger] adj[a][k] as int] <= c4.owner@[a] by {
        let z = adj[a][k] as int;
        assert(0 <= z < n);
        if on_stack_from(s, p, a) {
            let i = choose|i: int| p <= i < s.len() && #[trigger] s[i] == a;
            assert(c3.done(adj, a, adj[a].len() as int) && c3.low@[u as int] <= c3.low@[a]) by {
                reveal(above_ok);
            }
            assert(c3.owner@[z] >= 0 || (c3.in_stack@[z] && c3.low@[a] <= c3.dfn@[z])) by {
                reveal(edges_done);
            }
            if c3.owner@[z] >= 0 {
                if on_stack_from(s, p, z) {
                    let j = choose|j: int| p <= j < s.len() && #[trigger] s[j] == z;
                    assert(c3.owner@[s[j] as int] == -1) by {
                        reveal(stack_ok);
                    }
                }
                assert(c3.owner@[z] < index) by {
                    reveal(comps_ok);
                }
            } else {
                let j = lemma_place(c3, adj, p, z);
                assert(on_stack_from(s, p, z));
            }
        } else {
            assert(c3.owner@[a] >= 0);
            assert(0 <= c3.owner@[z] <= c3.owner@[a]) by {
                reveal(conn_ok);
            }
            if on_stack_from(s, p, z) {
                let j = choose|j: int| p <= j < s.len() && #[trigger] s[j] == z;
                assert(c3.owner@[s[j] as int] == -1) by {
                    reveal(stack_ok);
                }
            }
        }
    }
    reveal(conn_ok);
}

/// When all edges of `u` are followed and `u` knows of no lesser number
/// than its own, `u` and what stands above it on the stack make a
/// component.
proof fn lemma_emit(c0: TarjanContext, c3: TarjanContext, c4: TarjanContext, adj: Seq<Seq<usize>>, u: usize, p: int)
    requires
        closed_graph(adj),
        c0.inv(adj),
        at_vertex(c0, c3, adj, u, p, adj[u as int].len() as int),
        c3.dfn@[u as int] == c3.low@[u as int],
        popped(c3, c4, p),
    ensures
        left_vertex(c0, c4, adj, u),
{
    lemma_emit_basic(c3, c4, adj, p);
    lemma_emit_comps(c3, c4, adj, p);
    lemma_emit_conn(c0, c3, c4, adj, u, p);
    assert(c4.owner@.len() == adj.len() && c3.owner@.len() == adj.len() && c0.owner@.len()
        == adj.len() && c0.dfn@.len() == adj.len()) by {
        reveal(sizes);
    }
    assert(extends(c0, c4)) by {
        reveal(extends);
        assert forall|v: int| 0 <= v < c0.dfn@.len() && c0.owner@[v] >= 0 implies #[trigger] c4.owner@[v]
            == c0.owner@[v] by {
            assert(c3.owner@[v] == c0.owner@[v]);
            if on_stack_from(c3.stack@, p, v) {
                let j = choose|j: int| p <= j < c3.stack@.len() && #[trigger] c3.stack@[j] == v;
                assert(c3.owner@[c3.stack@[j] as int] == -1) by {
                    reveal(stack_ok);
                }
            }
        }
        assert forall|i: int| 0 <= i < c0.stack@.len() implies #[trigger] c4.stack@[i]
            == c0.stack@[i] by {
            assert(c3.stack@[i] == c0.stack@[i]);
        }
    }
    assert(on_stack_from(c3.stack@, p, u as int)) by {
        assert(c3.stack@[p] == u);
    }
    assert(c4.above(adj, u, p)) by {
        reveal(above_ok);
    }
}

/// A list of `true` and `false` with no `true` in it.
proof fn lemma_unvisited_all(s: Seq<bool>)
    requires
        forall|i: int| 0 <= i < s.len() ==> !s[i],
    ensures
        unvisited(s) == s.len(),
    decreases s.len(),
{
    if s.len() > 0 {
        lemma_unvisited_all(s.drop_last());
    }
}

/// A list of `true` and `false` with no `false` in it.
proof fn lemma_unvisited_none(s: Seq<bool>)
    requires
        unvisited(s) == 0,
    ensures
        forall|i: int| 0 <= i < s.len() ==> s[i],
    decreases s.len(),
{
    if s.len() > 0 {
        lemma_unvisited_none(s.drop_last());
        assert forall|i: int| 0 <= i < s.len() implies s[i] by {
            if i < s.len() - 1 {
                assert(s.drop_last()[i]);
            }
        }
    }
}

/// What a vertex with a component reaches lies in a component found no
/// later.
proof fn lemma_reach_order(own: Seq<int>, adj: Seq<Seq<usize>>, path: Seq<int>, i: int)
    requires
        closed_graph(adj),
        conn_ok(own, adj),
        own.len() == adj.len(),
        forall|v: int| 0 <= v < adj.len() ==> own[v] >= 0,
        is_path(adj, path),
        0 <= i < path.len(),
    ensures
        0 <= path[i] < adj.len(),
        own[path[i]] <= own[path[0]],
    decreases i,
{
    lemma_path_in_range(adj, path, i);
    if i > 0 {
        lemma_reach_order(own, adj, path, i - 1);
        assert(edge(adj, path[i - 1], path[i - 1 + 1]));
        let k = choose|k: int| 0 <= k < adj[path[i - 1]].len() && #[trigger] adj[path[i - 1]][k] == path[i];
        reveal(conn_ok);
        assert(own[adj[path[i - 1]][k] as int] <= own[path[i - 1]]);
    }
}

/// Whether `comps` lists `v`.
pub open spec fn lists_vertex(comps: Seq<Seq<usize>>, v: int) -> bool {
    exists|c: int, i: int| 0 <= c < comps.len() && 0 <= i < comps[c].len() && #[trigger] comps[c][i] == v
}

/// Whether `comps` are the strongly connected components of the graph:
/// every vertex stands in one of them, once, and two vertices stand in
/// the same one exactly when each reaches the other.
pub open spec fn is_scc_partition(adj: Seq<Seq<usize>>, comps: Seq<Seq<usize>>) -> bool {
    &&& forall|c: int, i: int|
        0 <= c < comps.len() && 0 <= i < comps[c].len() ==> (#[trigger] comps[c][i]) < adj.len()
    &&& forall|v: int| 0 <= v < adj.len() ==> #[trigger] lists_vertex(comps, v)
    &&& forall|c: int| 0 <= c < comps.len() ==> (#[trigger] comps[c]).len() > 0
    &&& forall|c: int, i: int, d: int, j: int|
        0 <= c < comps.len() && 0 <= i < comps[c].len() && 0 <= d < comps.len() && 0 <= j
            < comps[d].len() && (#[trigger] comps[c][i]) == (#[trigger] comps[d][j]) ==> c == d && i
            == j
    &&& forall|c: int, i: int, d: int, j: int|
        0 <= c < comps.len() && 0 <= i < comps[c].len() && 0 <= d < comps.len() && 0 <= j
            < comps[d].len() ==> ((c == d) <==> (reaches(
            adj,
            (#[trigger] comps[c][i]) as int,
            (#[trigger] comps[d][j]) as int,
        ) && reaches(adj, comps[d][j] as int, comps[c][i] as int)))
}

/// When the search is over, the components found are the strongly
/// connected components.
proof fn lemma_finish(c: TarjanContext, adj: Seq<Seq<usize>>)
    requires
        closed_graph(adj),
        c.inv(adj),
        c.stack@.len() == 0,
        forall|v: int| 0 <= v < adj.len() ==> c.dfn@[v] != 0,
    ensures
        is_scc_partition(adj, parts_of(c.scc@)),
{
    let n = adj.len();
    let comps = parts_of(c.scc@);
    let own = c.owner@;
    reveal(comps_ok);
    reveal(sizes);
    assert forall|v: int| 0 <= v < n implies own[v] >= 0 by {
        if c.in_stack@[v] {
            reveal(stack_ok);
            assert(on_stack(c.stack@, v));
        }
        assert(c.dfn@[v] != 0);
    }
    assert forall|v: int| 0 <= v < n implies #[trigger] lists_vertex(comps, v) by {
        let i = choose|i: int| 0 <= i < comps[own[v]].len() && #[trigger] comps[own[v]][i] == v;
        assert(comps[own[v]][i] == v);
    }
    assert forall|cc: int, i: int, d: int, j: int|
        0 <= cc < comps.len() && 0 <= i < comps[cc].len() && 0 <= d < comps.len() && 0 <= j
            < comps[d].len() && (#[trigger] comps[cc][i]) == (
        #[trigger] comps[d][j]) implies cc == d && i == j by {
        assert(own[comps[cc][i] as int] == cc);
        assert(own[comps[d][j] as int] == d);
        if i < j {
            assert(comps[cc][i] != comps[cc][j]);
        } else if j < i {
            assert(comps[cc][j] != comps[cc][i]);
        }
    }
    assert forall|cc: int, i: int, d: int, j: int|
        0 <= cc < comps.len() && 0 <= i < comps[cc].len() && 0 <= d < comps.len() && 0 <= j
            < comps[d].len() implies ((cc == d) <==> (reaches(
        adj,
        (#[trigger] comps[cc][i]) as int,
        (#[trigger] comps[d][j]) as int,
    ) && reaches(adj, comps[d][j] as int, comps[cc][i] as int))) by {
        let a = comps[cc][i] as int;
        let b = comps[d][j] as int;
        assert(own[a] == cc && own[b] == d);
        if cc == d {
            assert(reaches(adj, a, b) && reaches(adj, b, a)) by {
                reveal(conn_ok);
            }
        }
        if reaches(adj, a, b) && reaches(adj, b, a) {
            let there = choose|w: Seq<int>| is_path(adj, w) && w[0] == a && w.last() == b;
            let back = choose|w: Seq<int>| is_path(adj, w) && w[0] == b && w.last() == a;
            lemma_reach_order(own, adj, there, there.len() - 1);
            lemma_reach_order(own, adj, back, back.len() - 1);
        }
    }
}

/// Walks on from `u`, which has no number yet; gives numbers to what it
/// comes to, and collects a component whenever it leaves a vertex that
/// reaches nothing below itself on the stack.
fn tarjan_scc_recur(ctx: &mut TarjanContext, g: &Graph, u: usize)
    requires
        g.wf(),
        closed_graph(g@),
        old(ctx).inv(g@),
        u < g@.len(),
        old(ctx).dfn@[u as int] == 0,
        forall|i: int|
            0 <= i < old(ctx).stack@.len() ==> reaches(g@, #[trigger] old(ctx).stack@[i] as int, u as int),
    ensures
        left_vertex(*old(ctx), *final(ctx), g@, u),
    decreases unvisited(numbered(old(ctx).dfn@)),
{
    let ghost adj = g@;
    let ghost c0 = *ctx;
    let ghost p = c0.stack@.len() as int;
    proof {
        g.lemma_view_len();
        lemma_fresh(c0, adj, u);
        reveal(sizes);
    }
    ctx.dfn_cnt += 1;
    ctx.dfn[u] = ctx.dfn_cnt;
    ctx.low[u] = ctx.dfn_cnt;
    ctx.stack.push(u);
    ctx.in_stack[u] = true;
    proof {
        lemma_enter(c0, *ctx, adj, u);
    }
    let list = g.edges(u);
    let mut k: usize = 0;
    while k < list.len()
        invariant
            g.wf(),
            adj == g@,
            closed_graph(adj),
            u < adj.len(),
            list@ == adj[u as int],
            k <= list@.len(),
            c0 == *old(ctx),
            c0.inv(adj),
            forall|i: int| 0 <= i < p ==> reaches(adj, #[trigger] c0.stack@[i] as int, u as int),
            at_vertex(c0, *ctx, adj, u, p, k as int),
        decreases list@.len() - k,
    {
        let v = list[k];
        assert(adj[u as int][k as int] < adj.len());
        let ghost c1 = *ctx;
        proof {
            reveal(sizes);
        }
        if ctx.dfn[v] == 0 {
            proof {
                assert(edge(adj, u as int, v as int));
                lemma_call_pre(c0, c1, adj, u, p, k as int, v);
            }
            tarjan_scc_recur(ctx, g, v);
            let ghost c2 = *ctx;
            proof {
                reveal(sizes);
            }
            let lv = ctx.low[v];
            if ctx.low[u] > lv {
                ctx.low[u] = lv;
            }
            proof {
                assert(ctx.low@ =~= c2.low@.update(u as int, ctx.low@[u as int]));
                lemma_after_tree(c0, c1, c2, *ctx, adj, u, p, k as int, v);
            }
        } else if ctx.in_stack[v] {
            let dv = ctx.dfn[v];
            if ctx.low[u] > dv {
                ctx.low[u] = dv;
            }
            proof {
                assert(ctx.low@ =~= c1.low@.update(u as int, ctx.low@[u as int]));
                lemma_after_back(c0, c1, *ctx, adj, u, p, k as int, v);
            }
        } else {
            proof {
                lemma_after_skip(c0, c1, adj, u, p, k as int, v);
            }
        }
        k += 1;
    }
    proof {
        reveal(sizes);
    }
    if ctx.dfn[u] == ctx.low[u] {
        let ghost c3 = *ctx;
        let ghost index = ctx.scc@.len() as int;
        let ghost n = adj.len();
        let mut scc: Vec<usize> = Vec::new();
        let mut done = false;
        proof {
            assert forall|v: int|
                0 <= v < n implies (#[trigger] ctx.in_stack@[v] == (c3.in_stack@[v] && !on_stack_from(
                c3.stack@,
                ctx.stack@.len() as int,
                v,
            ))) by {}
            assert(ctx.stack@ =~= c3.stack@.subrange(0, ctx.stack@.len() as int));
        }
        while !done
            invariant
                n == adj.len(),
                u < n,
                c3.inv(adj),
                0 <= p < c3.stack@.len(),
                c3.stack@[p] == u,
                ctx.dfn@ == c3.dfn@,
                ctx.low@ == c3.low@,
                ctx.dfn_cnt == c3.dfn_cnt,
                ctx.scc@ == c3.scc@,
                ctx.owner@ == c3.owner@,
                ctx.in_stack@.len() == n,
                c3.in_stack@.len() == n,
                !done ==> p < ctx.stack@.len() <= c3.stack@.len(),
                done ==> ctx.stack@.len() == p,
                ctx.stack@ == c3.stack@.subrange(0, ctx.stack@.len() as int),
                scc@.len() == c3.stack@.len() - ctx.stack@.len(),
                forall|i: int|
                    0 <= i < scc@.len() ==> #[trigger] scc@[i] == c3.stack@[c3.stack@.len() - 1 - i],
                forall|v: int|
                    0 <= v < n ==> (#[trigger] ctx.in_stack@[v] == (c3.in_stack@[v] && !on_stack_from(
                        c3.stack@,
                        ctx.stack@.len() as int,
                        v,
                    ))),
            decreases ctx.stack@.len(),
                (if done {
                    0nat
                } else {
                    1nat
                }),
        {
            let ghost before = ctx.stack@;
            let ghost ins = ctx.in_stack@;
            let top = ctx.stack[ctx.stack.len() - 1];
            ctx.stack.pop();
            proof {
                reveal(stack_ok);
                assert(c3.stack@[before.len() - 1] < n);
            }
            ctx.in_stack[top] = false;
            scc.push(top);
            if top == u {
                done = true;
                proof {
                    lemma_stack_distinct(c3, adj, before.len() - 1, p);
                }
            } else {
                proof {
                    if before.len() - 1 == p {
                        assert(false);
                    }
                }
            }
            proof {
                assert(ctx.stack@ =~= c3.stack@.subrange(0, ctx.stack@.len() as int));
                let m = ctx.stack@.len() as int;
                assert forall|v: int|
                    0 <= v < n implies (#[trigger] ctx.in_stack@[v] == (c3.in_stack@[v]
                    && !on_stack_from(c3.stack@, m, v))) by {
                    if v == top {
                        assert(c3.stack@[m] == v);
                        assert(on_stack_from(c3.stack@, m, v));
                    } else {
                        assert(ctx.in_stack@[v] == ins[v]);
                        if on_stack_from(c3.stack@, m, v) {
                            let i = choose|i: int| m <= i < c3.stack@.len() && #[trigger] c3.stack@[i] == v;
                            assert(m + 1 <= i);
                            assert(on_stack_from(c3.stack@, m + 1, v));
                        }
                        if on_stack_from(c3.stack@, m + 1, v) {
                            let i = choose|i: int|
                                m + 1 <= i < c3.stack@.len() && #[trigger] c3.stack@[i] == v;
                            assert(m <= i && c3.stack@[i] == v);
                        }
                    }
                }
            }
        }
        ctx.scc.push(scc);
        ctx.owner = Ghost(
            Seq::new(
                n,
                |v: int|
                    if on_stack_from(c3.stack@, p, v) {
                        index
                    } else {
                        c3.owner@[v]
                    },
            ),
        );
        proof {
            reveal(sizes);
            lemma_emit(c0, c3, *ctx, adj, u, p);
        }
    } else {
        proof {
            lemma_keep(c0, *ctx, adj, u, p);
        }
    }
}

/// Finds the strongly connected components of the graph.
pub fn tarjan_scc(g: &Graph) -> (scc: Vec<Vec<usize>>)
    requires
        g.wf(),
        closed_graph(g@),
    ensures
        is_scc_partition(g@, parts_of(scc@)),
{
    let ghost adj = g@;
    proof {
        g.lemma_view_len();
    }
    let n = g.len();
    let mut ctx = TarjanContext {
        dfn_cnt: 0,
        dfn: zeros(n),
        low: zeros(n),
        stack: Vec::new(),
        in_stack: crate::graph::falses(n),
        scc: Vec::new(),
        owner: Ghost(Seq::new(n as nat, |v: int| -1int)),
    };
    proof {
        lemma_unvisited_all(numbered(ctx.dfn@));
        reveal(sizes);
        reveal(stack_ok);
        reveal(low_ok);
        reveal(chain_ok);
        reveal(comps_ok);
        reveal(conn_ok);
        assert forall|v: int| 0 <= v < n && #[trigger] ctx.in_stack@[v] implies on_stack(
            ctx.stack@,
            v,
        ) by {}
    }
    let mut u: usize = 0;
    while u < n
        invariant
            g.wf(),
            adj == g@,
            adj.len() == n,
            closed_graph(adj),
            u <= n,
            ctx.inv(adj),
            ctx.stack@.len() == 0,
            forall|v: int| 0 <= v < u ==> #[trigger] ctx.dfn@[v] != 0,
        decreases n - u,
    {
        proof {
            reveal(sizes);
        }
        if ctx.dfn[u] == 0 {
            let ghost c1 = ctx;
            tarjan_scc_recur(&mut ctx, g, u);
            proof {
                reveal(extends);
                reveal(sizes);
                if ctx.stack@.len() != 0 {
                    assert(linked(ctx.stack@, ctx.dfn@, ctx.low@, adj, 0)) by {
                        reveal(low_ok);
                    }
                    let j = choose|j: int| #[trigger] links(ctx.stack@, ctx.dfn@, ctx.low@, adj, 0, j);
                    assert(false);
                }
                assert forall|v: int| 0 <= v < u + 1 implies #[trigger] ctx.dfn@[v] != 0 by {
                    if v < u {
                        assert(c1.dfn@[v] != 0);
                    }
                }
            }
        }
        u += 1;
    }
    proof {
        lemma_finish(ctx, adj);
    }
    ctx.scc
}

/// A list of `n` zeros.
fn zeros(n: usize) -> (v: Vec<usize>)
    ensures
        v@.len() == n,
        forall|i: int| 0 <= i < n ==> v@[i] == 0,
{
    let mut v: Vec<usize> = Vec::new();
    let mut i: usize = 0;
    while i < n
        invariant
            i <= n,
            v@.len() == i,
            forall|j: int| 0 <= j < i ==> v@[j] == 0,
        decreases n - i,
    {
        v.push(0usize);
        i += 1;
    }
    v
}

} // verus!
