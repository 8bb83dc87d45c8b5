//! A B-tree of minimum degree 3 that holds numbers, each as often as it
//! was put in.
//!
//! Every node but the root holds at least 2 keys, every node at most 5. An
//! inner node has one child more than it has keys, and all leaves lie at
//! the same depth. The keys of a node stand in ascending order, and what
//! lies below the child between two keys lies between them.

use vstd::multiset::Multiset;
use vstd::prelude::*;

verus! {

/// The minimum degree.
pub const T: usize = 3;

/// A node of the tree.
#[derive(Debug)]
pub struct Node {
    keys: Vec<i32>,
    children: Vec<Box<Node>>,
}

/// Whether `s` stands in ascending order.
pub open spec fn ascending(s: Seq<i32>) -> bool {
    forall|i: int, j: int| 0 <= i <= j < s.len() ==> s[i] <= s[j]
}

/// How often `x` stands in `s`.
pub open spec fn times(s: Seq<i32>, x: i32) -> nat {
    s.to_multiset().count(x)
}

/// The least that may lie below child `i` of a node with keys `keys`.
pub open spec fn floor_of(keys: Seq<i32>, i: int) -> int {
    if i <= 0 {
        i32::MIN as int
    } else {
        keys[i - 1] as int
    }
}

/// The most that may lie below child `i` of a node with keys `keys`.
pub open spec fn roof_of(keys: Seq<i32>, i: int) -> int {
    if i >= keys.len() {
        i32::MAX as int
    } else {
        keys[i] as int
    }
}

/// How often `x` lies below the first `n` of `children`, which are trees
/// of height `h`.
pub closed spec fn count_below(children: Seq<Box<Node>>, h: nat, x: i32, n: nat) -> nat
    decreases h, n,
{
    if n == 0 {
        0
    } else {
        count_below(children, h, x, (n - 1) as nat) + children[n - 1].count(h, x)
    }
}

impl Node {
    /// How often `x` lies in the tree of height `h` under this node.
    pub closed spec fn count(&self, h: nat, x: i32) -> nat
        decreases h, 0nat,
    {
        if h == 0 {
            times(self.keys@, x)
        } else {
            times(self.keys@, x) + count_below(
                self.children@,
                (h - 1) as nat,
                x,
                self.children@.len(),
            )
        }
    }

    /// Whether all that lies in the tree of height `h` under this node lies
    /// from `lo` to `hi`.
    pub closed spec fn within(&self, h: nat, lo: int, hi: int) -> bool {
        forall|x: i32| self.count(h, x) > 0 ==> lo <= x <= hi
    }

    /// Whether this node heads a well-formed tree of height `h` and holds
    /// at least `min` keys itself.
    pub closed spec fn wf(&self, h: nat, min: nat) -> bool
        decreases h,
    {
        &&& min <= self.keys@.len() <= 2 * T - 1
        &&& ascending(self.keys@)
        &&& (h == 0 ==> self.children@.len() == 0)
        &&& (h > 0 ==> {
            &&& self.children@.len() == self.keys@.len() + 1
            &&& forall|i: int|
                0 <= i < self.children@.len() ==> (#[trigger] self.children@[i]).wf(
                    (h - 1) as nat,
                    (T - 1) as nat,
                )
            &&& forall|i: int|
                0 <= i < self.children@.len() ==> (#[trigger] self.children@[i]).within(
                    (h - 1) as nat,
                    floor_of(self.keys@, i),
                    roof_of(self.keys@, i),
                )
        })
    }
}

/// What lies below the first children of a list depends on those children
/// only.
proof fn lemma_count_below_ext(a: Seq<Box<Node>>, b: Seq<Box<Node>>, h: nat, x: i32, n: nat)
    requires
        n <= a.len(),
        n <= b.len(),
        forall|i: int| 0 <= i < n ==> a[i] == b[i],
    ensures
        count_below(a, h, x, n) == count_below(b, h, x, n),
    decreases n,
{
    if n > 0 {
        lemma_count_below_ext(a, b, h, x, (n - 1) as nat);
    }
}

/// What lies below two lists of children put together is what lies below
/// the one and what lies below the other.
proof fn lemma_count_below_concat(a: Seq<Box<Node>>, b: Seq<Box<Node>>, h: nat, x: i32)
    ensures
        count_below(a + b, h, x, (a + b).len()) == count_below(a, h, x, a.len()) + count_below(
            b,
            h,
            x,
            b.len(),
        ),
    decreases b.len(),
{
    if b.len() == 0 {
        assert(a + b =~= a);
    } else {
        let n = (a + b).len();
        lemma_count_below_concat(a, b.drop_last(), h, x);
        lemma_count_below_ext(a + b, a + b.drop_last(), h, x, (n - 1) as nat);
        lemma_count_below_ext(b, b.drop_last(), h, x, (b.len() - 1) as nat);
        assert((a + b)[n - 1] == b[b.len() - 1]);
    }
}

/// What lies below a list of one child.
proof fn lemma_count_below_one(c: Box<Node>, h: nat, x: i32)
    ensures
        count_below(seq![c], h, x, 1) == c.count(h, x),
{
    reveal_with_fuel(count_below, 2);
}

/// What lies below a part of the children, from `from` up to `to`.
spec fn count_part(children: Seq<Box<Node>>, h: nat, x: i32, from: int, to: int) -> nat {
    count_below(children.subrange(from, to), h, x, (to - from) as nat)
}

/// What lies below the children is what lies below those before `i`, below
/// child `i`, and below those after it.
proof fn lemma_count_below_split(children: Seq<Box<Node>>, h: nat, x: i32, i: int)
    requires
        0 <= i < children.len(),
    ensures
        count_below(children, h, x, children.len()) == count_part(children, h, x, 0, i)
            + children[i].count(h, x) + count_part(children, h, x, i + 1, children.len() as int),
{
    let a = children.subrange(0, i);
    let m = seq![children[i]];
    let b = children.subrange(i + 1, children.len() as int);
    assert(children =~= (a + m) + b);
    lemma_count_below_concat(a + m, b, h, x);
    lemma_count_below_concat(a, m, h, x);
    lemma_count_below_one(children[i], h, x);
}

/// Something that lies below the children lies below one of them.
proof fn lemma_count_below_some(children: Seq<Box<Node>>, h: nat, x: i32, n: nat) -> (i: int)
    requires
        n <= children.len(),
        count_below(children, h, x, n) > 0,
    ensures
        0 <= i < n,
        children[i].count(h, x) > 0,
    decreases n,
{
    if children[n - 1].count(h, x) > 0 {
        n - 1
    } else {
        lemma_count_below_some(children, h, x, (n - 1) as nat)
    }
}

/// A key is counted in a list exactly when it stands at some place of it.
proof fn lemma_times_positive(s: Seq<i32>, x: i32)
    ensures
        times(s, x) > 0 <==> exists|i: int| 0 <= i < s.len() && s[i] == x,
{
    vstd::seq_lib::to_multiset_contains(s, x);
    if s.contains(x) {
        let i = choose|i: int| 0 <= i < s.len() && s[i] == x;
    }
    if exists|i: int| 0 <= i < s.len() && s[i] == x {
        let i = choose|i: int| 0 <= i < s.len() && s[i] == x;
        assert(s.contains(x));
    }
}

/// A tree has one height only.
proof fn lemma_height_unique(node: Node, h1: nat, m1: nat, h2: nat, m2: nat)
    requires
        node.wf(h1, m1),
        node.wf(h2, m2),
    ensures
        h1 == h2,
    decreases h1,
{
    if h1 > 0 && h2 > 0 {
        assert(node.children@[0].wf((h1 - 1) as nat, (T - 1) as nat));
        assert(node.children@[0].wf((h2 - 1) as nat, (T - 1) as nat));
        lemma_height_unique(*node.children@[0], (h1 - 1) as nat, (T - 1) as nat, (h2 - 1) as nat, (T - 1) as nat);
    }
}

impl Node {
    /// A node without keys.
    fn new() -> (n: Self)
        ensures
            n.keys@ == Seq::<i32>::empty(),
            n.children@ == Seq::<Box<Node>>::empty(),
    {
        Node { keys: Vec::new(), children: Vec::new() }
    }

    /// Whether the node has no children.
    fn is_leaf(&self) -> (r: bool)
        ensures
            r == (self.children@.len() == 0),
    {
        self.children.len() == 0
    }

    /// Whether the node holds as many keys as a node can.
    fn is_full(&self) -> (r: bool)
        ensures
            r == (self.keys@.len() == 2 * T - 1),
    {
        self.keys.len() == 2 * T - 1
    }

    /// Finds `k` among the keys of the node: the first place that holds it,
    /// or else the place of the first greater key.
    fn search_in_node(&self, k: &i32) -> (r: Result<usize, usize>)
        requires
            ascending(self.keys@),
        ensures
            match r {
                Ok(i) => i < self.keys@.len() && self.keys@[i as int] == *k && forall|j: int|
                    0 <= j < i ==> self.keys@[j] < *k,
                Err(p) => p <= self.keys@.len() && (forall|j: int|
                    0 <= j < p ==> self.keys@[j] < *k) && (forall|j: int|
                    p <= j < self.keys@.len() ==> self.keys@[j] > *k),
            },
    {
        let mut i: usize = 0;
        while i < self.keys.len()
            invariant
                i <= self.keys@.len(),
                ascending(self.keys@),
                forall|j: int| 0 <= j < i ==> self.keys@[j] < *k,
            decreases self.keys@.len() - i,
        {
            if self.keys[i] == *k {
                return Ok(i);
            }
            if self.keys[i] > *k {
                return Err(i);
            }
            i += 1;
        }
        Err(i)
    }
}

/// How often `x` is `k`: once or not at all.
pub open spec fn one_if(x: i32, k: i32) -> nat {
    if x == k {
        1
    } else {
        0
    }
}

/// A list of one key holds that key once and nothing else.
proof fn lemma_times_one(k: i32, x: i32)
    ensures
        times(seq![k], x) == one_if(x, k),
        times(Seq::<i32>::empty(), x) == 0,
{
    broadcast use vstd::multiset::group_multiset_axioms;

    assert(seq![k] =~= Seq::<i32>::empty().push(k));
    vstd::seq_lib::to_multiset_build(Seq::<i32>::empty(), k);
    Seq::<i32>::empty().to_multiset_ensures();
    assert(Seq::<i32>::empty().to_multiset().len() == 0);
    assert(Seq::<i32>::empty().to_multiset() =~= Multiset::<i32>::empty()) by {
        assert forall|v: i32| Seq::<i32>::empty().to_multiset().count(v) == 0 by {
            vstd::multiset::axiom_count_le_len(Seq::<i32>::empty().to_multiset(), v);
        }
    }
}

/// Nothing lies below children under none of which it lies.
proof fn lemma_count_below_none(children: Seq<Box<Node>>, h: nat, x: i32, n: nat)
    requires
        n <= children.len(),
        forall|i: int| 0 <= i < n ==> (#[trigger] children[i]).count(h, x) == 0,
    ensures
        count_below(children, h, x, n) == 0,
    decreases n,
{
    if n > 0 {
        lemma_count_below_none(children, h, x, (n - 1) as nat);
    }
}

/// What lies in a tree of height above zero lies among the keys of its
/// head or below one of the head's children.
proof fn lemma_count_where(node: Node, h: nat, x: i32)
    requires
        node.count(h, x) > 0,
    ensures
        times(node.keys@, x) > 0 || (h > 0 && exists|i: int|
            0 <= i < node.children@.len() && (#[trigger] node.children@[i]).count(
                (h - 1) as nat,
                x,
            ) > 0),
{
    if times(node.keys@, x) == 0 {
        let i = lemma_count_below_some(node.children@, (h - 1) as nat, x, node.children@.len());
        assert(node.children@[i].count((h - 1) as nat, x) > 0);
    }
}

/// What lies below a child lies in the tree.
proof fn lemma_count_child(node: Node, h: nat, x: i32, i: int)
    requires
        h > 0,
        0 <= i < node.children@.len(),
    ensures
        node.count(h, x) >= node.children@[i].count((h - 1) as nat, x),
{
    lemma_count_below_split(node.children@, (h - 1) as nat, x, i);
}

/// A node that is well-formed with some number of keys asked for is
/// well-formed with fewer asked for.
proof fn lemma_wf_weaken(node: Node, h: nat, min: nat, less: nat)
    requires
        node.wf(h, min),
        less <= min || less <= node.keys@.len(),
    ensures
        node.wf(h, less),
{
}

/// A tree that lies within bounds lies within wider bounds.
proof fn lemma_within_widen(node: Node, h: nat, lo: int, hi: int, lo2: int, hi2: int)
    requires
        node.within(h, lo, hi),
        lo2 <= lo,
        hi <= hi2,
    ensures
        node.within(h, lo2, hi2),
{
}

/// Splitting a full node about its middle key gives two well-formed nodes
/// that hold, with the middle key, what the node held, the one below and
/// the other above that key.
proof fn lemma_split(full: Node, y: Node, z: Node, h: nat, lo: int, hi: int)
    requires
        full.wf(h, 0),
        full.keys@.len() == 2 * T - 1,
        full.within(h, lo, hi),
        y.keys@ == full.keys@.subrange(0, T - 1),
        z.keys@ == full.keys@.subrange(T as int, 2 * T - 1),
        h == 0 ==> y.children@.len() == 0 && z.children@.len() == 0,
        h > 0 ==> y.children@ == full.children@.subrange(0, T as int) && z.children@
            == full.children@.subrange(T as int, 2 * T as int),
    ensures
        y.wf(h, (T - 1) as nat),
        z.wf(h, (T - 1) as nat),
        forall|x: i32|
            full.count(h, x) == y.count(h, x) + z.count(h, x) + one_if(x, full.keys@[T - 1]),
        lo <= full.keys@[T - 1] <= hi,
        y.within(h, lo, full.keys@[T - 1] as int),
        z.within(h, full.keys@[T - 1] as int, hi),
{
    let mid = full.keys@[T - 1];
    let keys = full.keys@;
    assert(keys =~= (y.keys@ + seq![mid]) + z.keys@);
    assert forall|x: i32|
        full.count(h, x) == y.count(h, x) + z.count(h, x) + one_if(x, mid) by {
        vstd::seq_lib::lemma_multiset_commutative(y.keys@ + seq![mid], z.keys@);
        vstd::seq_lib::lemma_multiset_commutative(y.keys@, seq![mid]);
        lemma_times_one(mid, x);
        assert(times(keys, x) == times(y.keys@, x) + one_if(x, mid) + times(z.keys@, x));
        if h > 0 {
            assert(full.children@ =~= y.children@ + z.children@);
            lemma_count_below_concat(y.children@, z.children@, (h - 1) as nat, x);
        }
    }
    assert(times(keys, mid) > 0) by {
        lemma_times_positive(keys, mid);
    }
    assert(full.count(h, mid) > 0);
    if h > 0 {
        assert forall|i: int| 0 <= i < y.children@.len() implies (#[trigger] y.children@[i]).wf(
            (h - 1) as nat,
            (T - 1) as nat,
        ) && y.children@[i].within(
            (h - 1) as nat,
            floor_of(y.keys@, i),
            roof_of(y.keys@, i),
        ) by {
            assert(y.children@[i] == full.children@[i]);
            assert(full.children@[i].within((h - 1) as nat, floor_of(keys, i), roof_of(keys, i)));
            lemma_within_widen(
                *full.children@[i],
                (h - 1) as nat,
                floor_of(keys, i),
                roof_of(keys, i),
                floor_of(y.keys@, i),
                roof_of(y.keys@, i),
            );
        }
        assert forall|i: int| 0 <= i < z.children@.len() implies (#[trigger] z.children@[i]).wf(
            (h - 1) as nat,
            (T - 1) as nat,
        ) && z.children@[i].within(
            (h - 1) as nat,
            floor_of(z.keys@, i),
            roof_of(z.keys@, i),
        ) by {
            assert(z.children@[i] == full.children@[i + T]);
            assert(full.children@[i + T].within(
                (h - 1) as nat,
                floor_of(keys, i + T),
                roof_of(keys, i + T),
            ));
            lemma_within_widen(
                *full.children@[i + T],
                (h - 1) as nat,
                floor_of(keys, i + T),
                roof_of(keys, i + T),
                floor_of(z.keys@, i),
                roof_of(z.keys@, i),
            );
        }
    }
    assert forall|x: i32| y.count(h, x) > 0 implies lo <= x <= mid by {
        assert(full.count(h, x) > 0);
        lemma_count_where(y, h, x);
        if times(y.keys@, x) > 0 {
            lemma_times_positive(y.keys@, x);
            let i = choose|i: int| 0 <= i < y.keys@.len() && y.keys@[i] == x;
            assert(keys[i] == x);
        } else {
            let i = choose|i: int|
                0 <= i < y.children@.len() && (#[trigger] y.children@[i]).count(
                    (h - 1) as nat,
                    x,
                ) > 0;
            assert(y.children@[i] == full.children@[i]);
            assert(full.children@[i].within((h - 1) as nat, floor_of(keys, i), roof_of(keys, i)));
            assert(keys[i] <= mid);
        }
    }
    assert forall|x: i32| z.count(h, x) > 0 implies mid <= x <= hi by {
        assert(full.count(h, x) > 0);
        lemma_count_where(z, h, x);
        if times(z.keys@, x) > 0 {
            lemma_times_positive(z.keys@, x);
            let i = choose|i: int| 0 <= i < z.keys@.len() && z.keys@[i] == x;
            assert(keys[i + T] == x);
        } else {
            let i = choose|i: int|
                0 <= i < z.children@.len() && (#[trigger] z.children@[i]).count(
                    (h - 1) as nat,
                    x,
                ) > 0;
            assert(z.children@[i] == full.children@[i + T]);
            assert(full.children@[i + T].within(
                (h - 1) as nat,
                floor_of(keys, i + T),
                roof_of(keys, i + T),
            ));
            assert(mid <= keys[i + T - 1]);
        }
    }
}

/// Putting the two halves of a split child, and the key between them, in
/// the place of the child keeps the parent well-formed and what it holds.
proof fn lemma_split_parent(
    old: Node,
    new: Node,
    y: Node,
    z: Node,
    h: nat,
    g: nat,
    min: nat,
    at: int,
)
    requires
        h == g + 1,
        old.wf(h, min),
        old.keys@.len() < 2 * T - 1,
        0 <= at < old.children@.len(),
        old.children@[at].keys@.len() == 2 * T - 1,
        y.wf(g, (T - 1) as nat),
        z.wf(g, (T - 1) as nat),
        forall|x: i32|
            old.children@[at].count(g, x) == y.count(g, x) + z.count(
                g,
                x,
            ) + one_if(x, old.children@[at].keys@[T - 1]),
        floor_of(old.keys@, at) <= old.children@[at].keys@[T - 1] <= roof_of(old.keys@, at),
        y.within(g, floor_of(old.keys@, at), old.children@[at].keys@[T - 1] as int),
        z.within(g, old.children@[at].keys@[T - 1] as int, roof_of(old.keys@, at)),
        new.keys@ == old.keys@.insert(at, old.children@[at].keys@[T - 1]),
        new.children@ == old.children@.update(at, Box::new(y)).insert(at + 1, Box::new(z)),
    ensures
        new.wf(h, min),
        forall|x: i32| new.count(h, x) == old.count(h, x),
{
    let mid = old.children@[at].keys@[T - 1];
    assert(ascending(new.keys@)) by {
        assert forall|i: int, j: int| 0 <= i <= j < new.keys@.len() implies new.keys@[i]
            <= new.keys@[j] by {
            let i0 = if i < at { i } else { i - 1 };
            let j0 = if j < at { j } else { j - 1 };
            if i != at && j != at {
                assert(old.keys@[i0] <= old.keys@[j0]);
            } else if i == at && j != at {
                assert(old.keys@[at] <= old.keys@[j0]);
            } else if j == at && i != at {
                assert(old.keys@[i0] <= old.keys@[at - 1]);
            }
        }
    }
    assert forall|i: int| 0 <= i < new.children@.len() implies (#[trigger] new.children@[i]).wf(
        g,
        (T - 1) as nat,
    ) && new.children@[i].within(g, floor_of(new.keys@, i), roof_of(new.keys@, i)) by {
        if i < at {
            assert(new.children@[i] == old.children@[i]);
            assert(old.children@[i].within(g, floor_of(old.keys@, i), roof_of(old.keys@, i)));
        } else if i == at {
        } else if i == at + 1 {
        } else {
            assert(new.children@[i] == old.children@[i - 1]);
            assert(old.children@[i - 1].within(
                g,
                floor_of(old.keys@, i - 1),
                roof_of(old.keys@, i - 1),
            ));
        }
    }
    assert forall|x: i32| new.count(h, x) == old.count(h, x) by {
        vstd::seq_lib::to_multiset_insert(old.keys@, at, mid);
        let a = old.children@.subrange(0, at);
        let b = old.children@.subrange(at + 1, old.children@.len() as int);
        lemma_count_below_split(old.children@, g, x, at);
        assert(new.children@ =~= ((a + seq![Box::new(y)]) + seq![Box::new(z)]) + b);
        lemma_count_below_concat((a + seq![Box::new(y)]) + seq![Box::new(z)], b, g, x);
        lemma_count_below_concat(a + seq![Box::new(y)], seq![Box::new(z)], g, x);
        lemma_count_below_concat(a, seq![Box::new(y)], g, x);
        lemma_count_below_one(Box::new(y), g, x);
        lemma_count_below_one(Box::new(z), g, x);
    }
}

impl Node {
    /// Splits the full child at place `at` about its middle key, which
    /// moves up into this node.
    fn split_child(&mut self, at: usize, Ghost(h): Ghost<nat>, Ghost(min): Ghost<nat>)
        requires
            h > 0,
            old(self).wf(h, min),
            old(self).keys@.len() < 2 * T - 1,
            at < old(self).children@.len(),
            old(self).children@[at as int].keys@.len() == 2 * T - 1,
        ensures
            final(self).wf(h, min),
            forall|x: i32| final(self).count(h, x) == old(self).count(h, x),
            final(self).keys@ == old(self).keys@.insert(
                at as int,
                old(self).children@[at as int].keys@[T - 1],
            ),
            final(self).children@.len() == old(self).children@.len() + 1,
            final(self).children@[at as int].keys@.len() == T - 1,
            final(self).children@[at + 1].keys@.len() == T - 1,
    {
        let ghost full = *old(self).children@[at as int];
        let ghost g = (h - 1) as nat;
        proof {
            assert(old(self).children@[at as int].wf(g, (T - 1) as nat));
            assert(old(self).children@[at as int].within(
                g,
                floor_of(old(self).keys@, at as int),
                roof_of(old(self).keys@, at as int),
            ));
        }
        let y = &mut self.children[at];
        let mut z = Box::new(Node::new());
        z.keys = y.keys.split_off(T);
        if !y.is_leaf() {
            z.children = y.children.split_off(T);
        }
        let key = y.keys.pop().unwrap();
        self.keys.insert(at, key);
        let ghost yy = *self.children@[at as int];
        let ghost zz = *z;
        proof {
            assert(yy.keys@ =~= full.keys@.subrange(0, T - 1));
            lemma_wf_weaken(full, g, (T - 1) as nat, 0);
            lemma_split(
                full,
                yy,
                zz,
                g,
                floor_of(old(self).keys@, at as int),
                roof_of(old(self).keys@, at as int),
            );
        }
        self.children.insert(at + 1, z);
        proof {
            assert(self.children@ =~= old(self).children@.update(at as int, Box::new(yy)).insert(
                at + 1,
                Box::new(zz),
            ));
            lemma_split_parent(*old(self), *self, yy, zz, h, g, min, at as int);
        }
    }

    /// Puts `k` into the tree under this node, which is not full.
    fn insert_non_full(&mut self, k: i32, Ghost(h): Ghost<nat>, Ghost(min): Ghost<nat>) -> (r: bool)
        requires
            old(self).wf(h, min),
            old(self).keys@.len() < 2 * T - 1,
        ensures
            final(self).wf(h, min),
            final(self).keys@.len() >= old(self).keys@.len(),
            forall|x: i32| final(self).count(h, x) == old(self).count(h, x) + one_if(x, k),
            !r,
        decreases h,
    {
        let mut p = match self.search_in_node(&k) {
            Ok(i) => i,
            Err(e) => e,
        };
        if self.is_leaf() {
            self.keys.insert(p, k);
            proof {
                vstd::seq_lib::to_multiset_insert(old(self).keys@, p as int, k);
                lemma_ascending_insert(old(self).keys@, p as int, k);
            }
            false
        } else {
            let ghost g = (h - 1) as nat;
            if self.children[p].is_full() {
                self.split_child(p, Ghost(h), Ghost(min));
                if self.keys[p] < k {
                    p += 1;
                }
            }
            let ghost mid = *self;
            proof {
                assert(mid.children@[p as int].wf(g, (T - 1) as nat));
                assert(floor_of(mid.keys@, p as int) <= k <= roof_of(mid.keys@, p as int));
            }
            let r = self.children[p].insert_non_full(k, Ghost(g), Ghost((T - 1) as nat));
            proof {
                assert(self.children@ =~= mid.children@.update(p as int, self.children@[p as int]));
                lemma_child_grown(mid, *self, h, g, min, p as int, k);
            }
            r
        }
    }
}

/// Putting a key into an ascending list at its place keeps the list
/// ascending.
proof fn lemma_ascending_insert(s: Seq<i32>, p: int, k: i32)
    requires
        ascending(s),
        0 <= p <= s.len(),
        forall|j: int| 0 <= j < p ==> s[j] < k,
        forall|j: int| p <= j < s.len() ==> s[j] >= k,
    ensures
        ascending(s.insert(p, k)),
{
    let t = s.insert(p, k);
    assert forall|i: int, j: int| 0 <= i <= j < t.len() implies t[i] <= t[j] by {
        let i0 = if i < p { i } else { i - 1 };
        let j0 = if j < p { j } else { j - 1 };
        if i != p && j != p {
            assert(s[i0] <= s[j0]);
        }
    }
}

/// A node one of whose children took a key in, a key that lies between the
/// keys on both sides of the child, is well-formed and holds that key once
/// more.
proof fn lemma_child_grown(old: Node, new: Node, h: nat, g: nat, min: nat, p: int, k: i32)
    requires
        h == g + 1,
        old.wf(h, min),
        0 <= p < old.children@.len(),
        new.keys@ == old.keys@,
        new.children@ == old.children@.update(p, new.children@[p]),
        new.children@[p].wf(g, (T - 1) as nat),
        forall|x: i32| (#[trigger] new.children@[p].count(g, x)) == old.children@[p].count(g, x) + one_if(x, k),
        floor_of(old.keys@, p) <= k <= roof_of(old.keys@, p),
    ensures
        new.wf(h, min),
        forall|x: i32| new.count(h, x) == old.count(h, x) + one_if(x, k),
{
    assert forall|i: int| 0 <= i < new.children@.len() implies (#[trigger] new.children@[i]).wf(
        g,
        (T - 1) as nat,
    ) && new.children@[i].within(g, floor_of(new.keys@, i), roof_of(new.keys@, i)) by {
        assert(old.children@[i].within(g, floor_of(old.keys@, i), roof_of(old.keys@, i)));
        if i != p {
            assert(new.children@[i] == old.children@[i]);
        } else {
            assert forall|x: i32| new.children@[p].count(g, x) > 0 implies floor_of(old.keys@, p)
                <= x <= roof_of(old.keys@, p) by {
                if x != k {
                    assert(old.children@[p].count(g, x) > 0);
                }
            }
        }
    }
    assert forall|x: i32| new.count(h, x) == old.count(h, x) + one_if(x, k) by {
        lemma_count_below_split(old.children@, g, x, p);
        lemma_count_below_split(new.children@, g, x, p);
        assert(new.children@.subrange(0, p) =~= old.children@.subrange(0, p));
        assert(new.children@.subrange(p + 1, new.children@.len() as int)
            =~= old.children@.subrange(p + 1, old.children@.len() as int));
    }
}

/// A node one of whose children was replaced, by a well-formed child that
/// lies within the same bounds, is well-formed, and holds what it held but
/// for what the children differ in.
proof fn lemma_child_replaced(old: Node, new: Node, h: nat, g: nat, min: nat, p: int)
    requires
        h == g + 1,
        old.wf(h, min),
        0 <= p < old.children@.len(),
        new.keys@ == old.keys@,
        new.children@ == old.children@.update(p, new.children@[p]),
        new.children@[p].wf(g, (T - 1) as nat),
        new.children@[p].within(g, floor_of(old.keys@, p), roof_of(old.keys@, p)),
    ensures
        new.wf(h, min),
        forall|x: i32|
            new.count(h, x) + old.children@[p].count(g, x) == old.count(h, x) + (
            #[trigger] new.children@[p].count(g, x)),
{
    assert forall|i: int| 0 <= i < new.children@.len() implies (#[trigger] new.children@[i]).wf(
        g,
        (T - 1) as nat,
    ) && new.children@[i].within(g, floor_of(new.keys@, i), roof_of(new.keys@, i)) by {
        assert(old.children@[i].within(g, floor_of(old.keys@, i), roof_of(old.keys@, i)));
        if i != p {
            assert(new.children@[i] == old.children@[i]);
        }
    }
    assert forall|x: i32|
        new.count(h, x) + old.children@[p].count(g, x) == old.count(h, x) + (
        #[trigger] new.children@[p].count(g, x)) by {
        lemma_count_below_split(old.children@, g, x, p);
        lemma_count_below_split(new.children@, g, x, p);
        assert(new.children@.subrange(0, p) =~= old.children@.subrange(0, p));
        assert(new.children@.subrange(p + 1, new.children@.len() as int)
            =~= old.children@.subrange(p + 1, old.children@.len() as int));
    }
}

/// Whether `m` lies in the tree of height `h` under `node` and nothing
/// greater does.
pub closed spec fn is_max(node: Node, h: nat, m: i32) -> bool {
    node.count(h, m) > 0 && node.within(h, i32::MIN as int, m as int)
}

/// Whether `m` lies in the tree of height `h` under `node` and nothing
/// less does.
pub closed spec fn is_min(node: Node, h: nat, m: i32) -> bool {
    node.count(h, m) > 0 && node.within(h, m as int, i32::MAX as int)
}

/// The last key of a leaf is the greatest it holds, the first the least.
proof fn lemma_leaf_ends(leaf: Node)
    requires
        leaf.wf(0, 1),
    ensures
        is_max(leaf, 0, leaf.keys@.last()),
        is_min(leaf, 0, leaf.keys@.first()),
{
    lemma_times_positive(leaf.keys@, leaf.keys@.last());
    lemma_times_positive(leaf.keys@, leaf.keys@.first());
    assert(leaf.keys@[leaf.keys@.len() - 1] == leaf.keys@.last());
    assert(leaf.keys@[0] == leaf.keys@.first());
    assert forall|x: i32| leaf.count(0, x) > 0 implies leaf.keys@.first() <= x
        <= leaf.keys@.last() by {
        lemma_times_positive(leaf.keys@, x);
        let i = choose|i: int| 0 <= i < leaf.keys@.len() && leaf.keys@[i] == x;
        assert(leaf.keys@[0] <= leaf.keys@[i]);
        assert(leaf.keys@[i] <= leaf.keys@[leaf.keys@.len() - 1]);
    }
}

/// The greatest of what lies below the last child of a node is the
/// greatest of what lies in the node's tree.
proof fn lemma_max_below_last(node: Node, h: nat, g: nat, m: i32)
    requires
        h == g + 1,
        node.wf(h, 1),
        is_max(*node.children@[node.keys@.len() as int], g, m),
    ensures
        is_max(node, h, m),
{
    let n = node.keys@.len() as int;
    let last = node.children@[n];
    lemma_count_child(node, h, m, n);
    assert(last.within(g, floor_of(node.keys@, n), roof_of(node.keys@, n)));
    assert(node.keys@[n - 1] <= m);
    assert forall|x: i32| node.count(h, x) > 0 implies x <= m by {
        lemma_count_where(node, h, x);
        if times(node.keys@, x) > 0 {
            lemma_times_positive(node.keys@, x);
            let i = choose|i: int| 0 <= i < node.keys@.len() && node.keys@[i] == x;
            assert(node.keys@[i] <= node.keys@[n - 1]);
        } else {
            let i = choose|i: int|
                0 <= i < node.children@.len() && (#[trigger] node.children@[i]).count(g, x) > 0;
            assert(node.children@[i].within(g, floor_of(node.keys@, i), roof_of(node.keys@, i)));
            if i < n {
                assert(node.keys@[i] <= node.keys@[n - 1]);
            }
        }
    }
}

/// The least of what lies below the first child of a node is the least of
/// what lies in the node's tree.
proof fn lemma_min_below_first(node: Node, h: nat, g: nat, m: i32)
    requires
        h == g + 1,
        node.wf(h, 1),
        is_min(*node.children@[0], g, m),
    ensures
        is_min(node, h, m),
{
    let first = node.children@[0];
    lemma_count_child(node, h, m, 0);
    assert(first.within(g, floor_of(node.keys@, 0), roof_of(node.keys@, 0)));
    assert(m <= node.keys@[0]);
    assert forall|x: i32| node.count(h, x) > 0 implies m <= x by {
        lemma_count_where(node, h, x);
        if times(node.keys@, x) > 0 {
            lemma_times_positive(node.keys@, x);
            let i = choose|i: int| 0 <= i < node.keys@.len() && node.keys@[i] == x;
            assert(node.keys@[0] <= node.keys@[i]);
        } else {
            let i = choose|i: int|
                0 <= i < node.children@.len() && (#[trigger] node.children@[i]).count(g, x) > 0;
            assert(node.children@[i].within(g, floor_of(node.keys@, i), roof_of(node.keys@, i)));
            if i > 0 {
                assert(node.keys@[0] <= node.keys@[i - 1]);
            }
        }
    }
}

impl Node {
    /// The greatest of what lies in the tree under this node.
    fn greatest(&self, Ghost(h): Ghost<nat>) -> (m: i32)
        requires
            self.wf(h, 1),
        ensures
            is_max(*self, h, m),
        decreases h,
    {
        if self.is_leaf() {
            proof {
                lemma_leaf_ends(*self);
            }
            self.keys[self.keys.len() - 1]
        } else {
            let ghost g = (h - 1) as nat;
            let last = &self.children[self.keys.len()];
            proof {
                assert(self.children@[self.keys@.len() as int].wf(g, (T - 1) as nat));
                lemma_wf_weaken(**last, g, (T - 1) as nat, 1);
            }
            let m = last.greatest(Ghost(g));
            proof {
                lemma_max_below_last(*self, h, g, m);
            }
            m
        }
    }

    /// The least of what lies in the tree under this node.
    fn least(&self, Ghost(h): Ghost<nat>) -> (m: i32)
        requires
            self.wf(h, 1),
        ensures
            is_min(*self, h, m),
        decreases h,
    {
        if self.is_leaf() {
            proof {
                lemma_leaf_ends(*self);
            }
            self.keys[0]
        } else {
            let ghost g = (h - 1) as nat;
            let first = &self.children[0];
            proof {
                assert(self.children@[0].wf(g, (T - 1) as nat));
                lemma_wf_weaken(**first, g, (T - 1) as nat, 1);
            }
            let m = first.least(Ghost(g));
            proof {
                lemma_min_below_first(*self, h, g, m);
            }
            m
        }
    }

    /// The greatest of what lies below the child before key `at`.
    fn predecessor(&self, at: usize, Ghost(h): Ghost<nat>, Ghost(min): Ghost<nat>) -> (m: i32)
        requires
            h > 0,
            self.wf(h, min),
            at < self.children@.len(),
        ensures
            is_max(*self.children@[at as int], (h - 1) as nat, m),
    {
        proof {
            assert(self.children@[at as int].wf((h - 1) as nat, (T - 1) as nat));
            lemma_wf_weaken(*self.children@[at as int], (h - 1) as nat, (T - 1) as nat, 1);
        }
        self.children[at].greatest(Ghost((h - 1) as nat))
    }

    /// The least of what lies below the child after key `at - 1`.
    fn successor(&self, at: usize, Ghost(h): Ghost<nat>, Ghost(min): Ghost<nat>) -> (m: i32)
        requires
            h > 0,
            self.wf(h, min),
            at < self.children@.len(),
        ensures
            is_min(*self.children@[at as int], (h - 1) as nat, m),
    {
        proof {
            assert(self.children@[at as int].wf((h - 1) as nat, (T - 1) as nat));
            lemma_wf_weaken(*self.children@[at as int], (h - 1) as nat, (T - 1) as nat, 1);
        }
        self.children[at].least(Ghost((h - 1) as nat))
    }
}

/// What lies in a node lies within the node's bounds, key by key and
/// child by child.
proof fn lemma_within_parts(node: Node, h: nat, lo: int, hi: int)
    requires
        node.within(h, lo, hi),
    ensures
        forall|i: int| 0 <= i < node.keys@.len() ==> lo <= #[trigger] node.keys@[i] <= hi,
        h > 0 ==> forall|i: int|
            0 <= i < node.children@.len() ==> (#[trigger] node.children@[i]).within(
                (h - 1) as nat,
                lo,
                hi,
            ),
{
    assert forall|i: int| 0 <= i < node.keys@.len() implies lo <= #[trigger] node.keys@[i]
        <= hi by {
        let x = node.keys@[i];
        lemma_times_positive(node.keys@, x);
        assert(node.keys@[i] == x);
        assert(times(node.keys@, x) > 0);
        assert(node.count(h, x) > 0);
    }
    if h > 0 {
        assert forall|i: int| 0 <= i < node.children@.len() implies (#[trigger] node.children@[i]).within(
            (h - 1) as nat,
            lo,
            hi,
        ) by {
            let g = (h - 1) as nat;
            let c = node.children@[i];
            assert forall|x: i32| c.count(g, x) > 0 implies lo <= x <= hi by {
                lemma_count_child(node, h, x, i);
            }
        }
    }
}

/// Two well-formed nodes of one height, with a key that lies between what
/// they hold, make one well-formed node when there is room for all the
/// keys: it holds what the two held, and the key.
proof fn lemma_joined(left: Node, right: Node, key: i32, joined: Node, h: nat, lo: int, hi: int)
    requires
        left.wf(h, 0),
        right.wf(h, 0),
        left.within(h, lo, key as int),
        right.within(h, key as int, hi),
        lo <= key <= hi,
        left.keys@.len() + right.keys@.len() + 1 <= 2 * T - 1,
        joined.keys@ == (left.keys@ + seq![key]) + right.keys@,
        joined.children@ == left.children@ + right.children@,
    ensures
        joined.wf(h, 0),
        joined.within(h, lo, hi),
        forall|x: i32|
            joined.count(h, x) == left.count(h, x) + right.count(h, x) + one_if(x, key),
{
    let n = left.keys@.len() as int;
    lemma_within_parts(left, h, lo, key as int);
    lemma_within_parts(right, h, key as int, hi);
    assert(ascending(joined.keys@)) by {
        assert forall|i: int, j: int| 0 <= i <= j < joined.keys@.len() implies joined.keys@[i]
            <= joined.keys@[j] by {
            if j < n {
                assert(left.keys@[i] <= left.keys@[j]);
            } else if i > n {
                assert(right.keys@[i - n - 1] <= right.keys@[j - n - 1]);
            } else {
                if i < n {
                    assert(left.keys@[i] <= key);
                }
                if j > n {
                    assert(key <= right.keys@[j - n - 1]);
                }
            }
        }
    }
    if h > 0 {
        let g = (h - 1) as nat;
        assert forall|i: int| 0 <= i < joined.children@.len() implies (#[trigger] joined.children@[i]).wf(
            g,
            (T - 1) as nat,
        ) && joined.children@[i].within(
            g,
            floor_of(joined.keys@, i),
            roof_of(joined.keys@, i),
        ) by {
            if i <= n {
                let c = left.children@[i];
                assert(joined.children@[i] == c);
                assert(c.wf(g, (T - 1) as nat));
                assert(c.within(g, floor_of(left.keys@, i), roof_of(left.keys@, i)));
                assert(c.within(g, lo, key as int));
                assert forall|x: i32| c.count(g, x) > 0 implies floor_of(joined.keys@, i) <= x
                    <= roof_of(joined.keys@, i) by {}
            } else {
                let c = right.children@[i - n - 1];
                assert(joined.children@[i] == c);
                assert(c.wf(g, (T - 1) as nat));
                assert(c.within(g, floor_of(right.keys@, i - n - 1), roof_of(right.keys@, i - n - 1)));
                assert(c.within(g, key as int, hi));
                assert forall|x: i32| c.count(g, x) > 0 implies floor_of(joined.keys@, i) <= x
                    <= roof_of(joined.keys@, i) by {}
            }
        }
    }
    assert forall|x: i32|
        joined.count(h, x) == left.count(h, x) + right.count(h, x) + one_if(x, key) by {
        vstd::seq_lib::lemma_multiset_commutative(left.keys@ + seq![key], right.keys@);
        vstd::seq_lib::lemma_multiset_commutative(left.keys@, seq![key]);
        lemma_times_one(key, x);
        if h > 0 {
            lemma_count_below_concat(left.children@, right.children@, (h - 1) as nat, x);
        }
    }
    assert forall|x: i32| joined.count(h, x) > 0 implies lo <= x <= hi by {}
}

/// The keys and the children of a node, as mathematical values.
pub struct Parts {
    pub keys: Seq<i32>,
    pub children: Seq<Box<Node>>,
}

impl Parts {
    /// How often `x` lies in the tree of height `h` that these parts head.
    pub closed spec fn count(self, h: nat, x: i32) -> nat {
        if h == 0 {
            times(self.keys, x)
        } else {
            times(self.keys, x) + count_below(self.children, (h - 1) as nat, x, self.children.len())
        }
    }

    /// Whether all that lies in the tree of height `h` that these parts
    /// head lies from `lo` to `hi`.
    pub closed spec fn within(self, h: nat, lo: int, hi: int) -> bool {
        forall|x: i32| self.count(h, x) > 0 ==> lo <= x <= hi
    }

    /// Whether these parts head a well-formed tree of height `h`, with at
    /// least `min` keys.
    pub closed spec fn wf(self, h: nat, min: nat) -> bool {
        &&& min <= self.keys.len() <= 2 * T - 1
        &&& ascending(self.keys)
        &&& (h == 0 ==> self.children.len() == 0)
        &&& (h > 0 ==> {
            &&& self.children.len() == self.keys.len() + 1
            &&& forall|i: int|
                0 <= i < self.children.len() ==> (#[trigger] self.children[i]).wf(
                    (h - 1) as nat,
                    (T - 1) as nat,
                )
            &&& forall|i: int|
                0 <= i < self.children.len() ==> (#[trigger] self.children[i]).within(
                    (h - 1) as nat,
                    floor_of(self.keys, i),
                    roof_of(self.keys, i),
                )
        })
    }
}

impl Node {
    /// The keys and the children of the node.
    pub closed spec fn parts(&self) -> Parts {
        Parts { keys: self.keys@, children: self.children@ }
    }
}

/// What holds of a node holds of its parts.
proof fn lemma_parts(node: Node, h: nat)
    ensures
        forall|x: i32| #[trigger] node.count(h, x) == node.parts().count(h, x),
        forall|min: nat| #[trigger] node.wf(h, min) == node.parts().wf(h, min),
        forall|lo: int, hi: int| #[trigger] node.within(h, lo, hi) == node.parts().within(h, lo, hi),
{
    assert forall|x: i32| #[trigger] node.count(h, x) == node.parts().count(h, x) by {}
    assert forall|lo: int, hi: int| #[trigger]
        node.within(h, lo, hi) == node.parts().within(h, lo, hi) by {
        if node.within(h, lo, hi) {
            assert forall|x: i32| node.parts().count(h, x) > 0 implies lo <= x <= hi by {
                assert(node.count(h, x) > 0);
            }
        }
        if node.parts().within(h, lo, hi) {
            assert forall|x: i32| node.count(h, x) > 0 implies lo <= x <= hi by {
                assert(node.parts().count(h, x) > 0);
            }
        }
    }
}

/// What lies in a tree of height above zero lies among the keys of its
/// head or below one of the head's children.
proof fn lemma_count_where_p(node: Parts, h: nat, x: i32)
    requires
        node.count(h, x) > 0,
    ensures
        times(node.keys, x) > 0 || (h > 0 && exists|i: int|
            0 <= i < node.children.len() && (#[trigger] node.children[i]).count(
                (h - 1) as nat,
                x,
            ) > 0),
{
    if times(node.keys, x) == 0 {
        let i = lemma_count_below_some(node.children, (h - 1) as nat, x, node.children.len());
        assert(node.children[i].count((h - 1) as nat, x) > 0);
    }
}

/// What lies below a child lies in the tree.
proof fn lemma_count_child_p(node: Parts, h: nat, x: i32, i: int)
    requires
        h > 0,
        0 <= i < node.children.len(),
    ensures
        node.count(h, x) >= node.children[i].count((h - 1) as nat, x),
{
    lemma_count_below_split(node.children, (h - 1) as nat, x, i);
}

/// What lies in a node lies within the node's bounds, key by key and
/// child by child.
proof fn lemma_within_parts_p(node: Parts, h: nat, lo: int, hi: int)
    requires
        node.within(h, lo, hi),
    ensures
        forall|i: int| 0 <= i < node.keys.len() ==> lo <= #[trigger] node.keys[i] <= hi,
        h > 0 ==> forall|i: int|
            0 <= i < node.children.len() ==> (#[trigger] node.children[i]).within(
                (h - 1) as nat,
                lo,
                hi,
            ),
{
    assert forall|i: int| 0 <= i < node.keys.len() implies lo <= #[trigger] node.keys[i]
        <= hi by {
        let x = node.keys[i];
        lemma_times_positive(node.keys, x);
        assert(node.keys[i] == x);
        assert(times(node.keys, x) > 0);
        assert(node.count(h, x) > 0);
    }
    if h > 0 {
        assert forall|i: int| 0 <= i < node.children.len() implies (#[trigger] node.children[i]).within(
            (h - 1) as nat,
            lo,
            hi,
        ) by {
            let g = (h - 1) as nat;
            let c = node.children[i];
            assert forall|x: i32| c.count(g, x) > 0 implies lo <= x <= hi by {
                lemma_count_child_p(node, h, x, i);
            }
        }
    }
}

/// A node whose keys and children all lie within bounds lies within them.
proof fn lemma_within_whole_p(node: Parts, h: nat, lo: int, hi: int)
    requires
        forall|i: int| 0 <= i < node.keys.len() ==> lo <= #[trigger] node.keys[i] <= hi,
        h > 0 ==> forall|i: int|
            0 <= i < node.children.len() ==> (#[trigger] node.children[i]).within(
                (h - 1) as nat,
                lo,
                hi,
            ),
    ensures
        node.within(h, lo, hi),
{
    assert forall|x: i32| node.count(h, x) > 0 implies lo <= x <= hi by {
        lemma_count_where_p(node, h, x);
        if times(node.keys, x) > 0 {
            lemma_times_positive(node.keys, x);
            let i = choose|i: int| 0 <= i < node.keys.len() && node.keys[i] == x;
            assert(lo <= node.keys[i] <= hi);
        } else {
            let i = choose|i: int|
                0 <= i < node.children.len() && (#[trigger] node.children[i]).count(
                    (h - 1) as nat,
                    x,
                ) > 0;
            assert(node.children[i].within((h - 1) as nat, lo, hi));
        }
    }
}

/// Two well-formed nodes of one height, with a key that lies between what
/// they hold, make one well-formed node when there is room for all the
/// keys: it holds what the two held, and the key.
proof fn lemma_joined_p(left: Parts, right: Parts, key: i32, joined: Parts, h: nat, lo: int, hi: int)
    requires
        left.wf(h, 0),
        right.wf(h, 0),
        left.within(h, lo, key as int),
        right.within(h, key as int, hi),
        lo <= key <= hi,
        left.keys.len() + right.keys.len() + 1 <= 2 * T - 1,
        joined.keys == (left.keys + seq![key]) + right.keys,
        joined.children == left.children + right.children,
    ensures
        joined.wf(h, 0),
        joined.within(h, lo, hi),
        forall|x: i32|
            joined.count(h, x) == left.count(h, x) + right.count(h, x) + one_if(x, key),
{
    let n = left.keys.len() as int;
    lemma_within_parts_p(left, h, lo, key as int);
    lemma_within_parts_p(right, h, key as int, hi);
    assert(ascending(joined.keys)) by {
        assert forall|i: int, j: int| 0 <= i <= j < joined.keys.len() implies joined.keys[i]
            <= joined.keys[j] by {
            if j < n {
                assert(left.keys[i] <= left.keys[j]);
            } else if i > n {
                assert(right.keys[i - n - 1] <= right.keys[j - n - 1]);
            } else {
                if i < n {
                    assert(left.keys[i] <= key);
                }
                if j > n {
                    assert(key <= right.keys[j - n - 1]);
                }
            }
        }
    }
    if h > 0 {
        let g = (h - 1) as nat;
        assert forall|i: int| 0 <= i < joined.children.len() implies (#[trigger] joined.children[i]).wf(
            g,
            (T - 1) as nat,
        ) && joined.children[i].within(
            g,
            floor_of(joined.keys, i),
            roof_of(joined.keys, i),
        ) by {
            if i <= n {
                let c = left.children[i];
                assert(joined.children[i] == c);
                assert(c.wf(g, (T - 1) as nat));
                assert(c.within(g, floor_of(left.keys, i), roof_of(left.keys, i)));
                assert(c.within(g, lo, key as int));
                assert forall|x: i32| c.count(g, x) > 0 implies floor_of(joined.keys, i) <= x
                    <= roof_of(joined.keys, i) by {}
            } else {
                let c = right.children[i - n - 1];
                assert(joined.children[i] == c);
                assert(c.wf(g, (T - 1) as nat));
                assert(c.within(g, floor_of(right.keys, i - n - 1), roof_of(right.keys, i - n - 1)));
                assert(c.within(g, key as int, hi));
                assert forall|x: i32| c.count(g, x) > 0 implies floor_of(joined.keys, i) <= x
                    <= roof_of(joined.keys, i) by {}
            }
        }
    }
    assert forall|x: i32|
        joined.count(h, x) == left.count(h, x) + right.count(h, x) + one_if(x, key) by {
        vstd::seq_lib::lemma_multiset_commutative(left.keys + seq![key], right.keys);
        vstd::seq_lib::lemma_multiset_commutative(left.keys, seq![key]);
        lemma_times_one(key, x);
        if h > 0 {
            lemma_count_below_concat(left.children, right.children, (h - 1) as nat, x);
        }
    }
    assert forall|x: i32| joined.count(h, x) > 0 implies lo <= x <= hi by {}
}

/// A well-formed node is the joining of what stands before one of its keys
/// and what stands after it.
proof fn lemma_parted_p(node: Parts, left: Parts, right: Parts, i: int, h: nat, lo: int, hi: int)
    requires
        node.wf(h, 0),
        node.within(h, lo, hi),
        0 <= i < node.keys.len(),
        left.keys == node.keys.subrange(0, i),
        right.keys == node.keys.subrange(i + 1, node.keys.len() as int),
        h == 0 ==> left.children.len() == 0 && right.children.len() == 0,
        h > 0 ==> left.children == node.children.subrange(0, i + 1) && right.children
            == node.children.subrange(i + 1, node.children.len() as int),
    ensures
        left.wf(h, 0),
        right.wf(h, 0),
        lo <= node.keys[i] <= hi,
        left.within(h, lo, node.keys[i] as int),
        right.within(h, node.keys[i] as int, hi),
        forall|x: i32|
            node.count(h, x) == left.count(h, x) + right.count(h, x) + one_if(x, node.keys[i]),
{
    let key = node.keys[i];
    let keys = node.keys;
    lemma_within_parts_p(node, h, lo, hi);
    assert(keys =~= (left.keys + seq![key]) + right.keys);
    assert forall|x: i32|
        node.count(h, x) == left.count(h, x) + right.count(h, x) + one_if(x, key) by {
        vstd::seq_lib::lemma_multiset_commutative(left.keys + seq![key], right.keys);
        vstd::seq_lib::lemma_multiset_commutative(left.keys, seq![key]);
        lemma_times_one(key, x);
        if h > 0 {
            assert(node.children =~= left.children + right.children);
            lemma_count_below_concat(left.children, right.children, (h - 1) as nat, x);
        }
    }
    assert forall|j: int| 0 <= j < left.keys.len() implies lo <= #[trigger] left.keys[j]
        <= key by {
        assert(left.keys[j] == keys[j]);
        assert(keys[j] <= keys[i]);
    }
    assert forall|j: int| 0 <= j < right.keys.len() implies key <= #[trigger] right.keys[j]
        <= hi by {
        assert(right.keys[j] == keys[j + i + 1]);
        assert(keys[i] <= keys[j + i + 1]);
    }
    if h > 0 {
        let g = (h - 1) as nat;
        assert forall|j: int| 0 <= j < left.children.len() implies (#[trigger] left.children[j]).wf(
            g,
            (T - 1) as nat,
        ) && left.children[j].within(g, floor_of(left.keys, j), roof_of(left.keys, j))
            && left.children[j].within(g, lo, key as int) by {
            let c = node.children[j];
            assert(left.children[j] == c);
            assert(c.wf(g, (T - 1) as nat));
            assert(c.within(g, floor_of(keys, j), roof_of(keys, j)));
            assert(c.within(g, lo, hi));
            assert(keys[j] <= keys[i]);
            assert forall|x: i32| c.count(g, x) > 0 implies lo <= x <= key && floor_of(
                left.keys,
                j,
            ) <= x <= roof_of(left.keys, j) by {}
        }
        assert forall|j: int| 0 <= j < right.children.len() implies (#[trigger] right.children[j]).wf(
            g,
            (T - 1) as nat,
        ) && right.children[j].within(g, floor_of(right.keys, j), roof_of(right.keys, j))
            && right.children[j].within(g, key as int, hi) by {
            let c = node.children[j + i + 1];
            assert(right.children[j] == c);
            assert(c.wf(g, (T - 1) as nat));
            assert(c.within(g, floor_of(keys, j + i + 1), roof_of(keys, j + i + 1)));
            assert(c.within(g, lo, hi));
            assert(keys[i] <= keys[j + i]);
            assert forall|x: i32| c.count(g, x) > 0 implies key <= x <= hi && floor_of(
                right.keys,
                j,
            ) <= x <= roof_of(right.keys, j) by {}
        }
    }
    lemma_within_whole_p(left, h, lo, key as int);
    lemma_within_whole_p(right, h, key as int, hi);
}

/// Whether `k` lies strictly between the keys before place `p` and the
/// keys from place `p` on.
pub closed spec fn parts_at(keys: Seq<i32>, p: int, k: i32) -> bool {
    &&& 0 <= p <= keys.len()
    &&& forall|j: int| 0 <= j < p ==> keys[j] < k
    &&& forall|j: int| p <= j < keys.len() ==> keys[j] > k
}

/// A node in which a key and the children on both its sides were replaced
/// is well-formed when the new children are and lie on their sides of the
/// new key; what it holds changes by what the key and the two children
/// changed by.
proof fn lemma_pair_replaced(old: Node, new: Node, h: nat, g: nat, min: nat, i: int)
    requires
        h == g + 1,
        old.wf(h, min),
        0 <= i < old.keys@.len(),
        new.keys@ == old.keys@.update(i, new.keys@[i]),
        new.children@ == old.children@.update(i, new.children@[i]).update(
            i + 1,
            new.children@[i + 1],
        ),
        new.children@[i].wf(g, (T - 1) as nat),
        new.children@[i + 1].wf(g, (T - 1) as nat),
        floor_of(old.keys@, i) <= new.keys@[i] <= roof_of(old.keys@, i + 1),
        new.children@[i].within(g, floor_of(old.keys@, i), new.keys@[i] as int),
        new.children@[i + 1].within(g, new.keys@[i] as int, roof_of(old.keys@, i + 1)),
    ensures
        new.wf(h, min),
        forall|x: i32|
            new.count(h, x) + old.children@[i].count(g, x) + old.children@[i + 1].count(g, x)
                + one_if(x, old.keys@[i]) == old.count(h, x) + (#[trigger] new.children@[i].count(
                g,
                x,
            )) + new.children@[i + 1].count(g, x) + one_if(x, new.keys@[i]),
{
    let key = new.keys@[i];
    assert(ascending(new.keys@)) by {
        assert forall|a: int, b: int| 0 <= a <= b < new.keys@.len() implies new.keys@[a]
            <= new.keys@[b] by {
            assert(old.keys@[a] <= old.keys@[b]);
            if a == i && b != i {
                assert(old.keys@[i + 1] <= old.keys@[b]);
            } else if b == i && a != i {
                assert(old.keys@[a] <= old.keys@[i - 1]);
            }
        }
    }
    assert forall|j: int| 0 <= j < new.children@.len() implies (#[trigger] new.children@[j]).wf(
        g,
        (T - 1) as nat,
    ) && new.children@[j].within(g, floor_of(new.keys@, j), roof_of(new.keys@, j)) by {
        if j != i && j != i + 1 {
            assert(new.children@[j] == old.children@[j]);
            assert(old.children@[j].within(g, floor_of(old.keys@, j), roof_of(old.keys@, j)));
        }
    }
    assert forall|x: i32|
        new.count(h, x) + old.children@[i].count(g, x) + old.children@[i + 1].count(g, x)
            + one_if(x, old.keys@[i]) == old.count(h, x) + (#[trigger] new.children@[i].count(
            g,
            x,
        )) + new.children@[i + 1].count(g, x) + one_if(x, key) by {
        vstd::seq_lib::to_multiset_update(old.keys@, i, key);
        lemma_times_positive(old.keys@, old.keys@[i]);
        assert(times(old.keys@, old.keys@[i]) > 0);
        assert(times(new.keys@, x) + one_if(x, old.keys@[i]) == times(old.keys@, x) + one_if(
            x,
            key,
        ));
        let a = old.children@.subrange(0, i);
        let b = old.children@.subrange(i + 2, old.children@.len() as int);
        let om = seq![old.children@[i]] + seq![old.children@[i + 1]];
        let nm = seq![new.children@[i]] + seq![new.children@[i + 1]];
        assert(old.children@ =~= (a + om) + b);
        assert(new.children@ =~= (a + nm) + b);
        lemma_count_below_concat(a + om, b, g, x);
        lemma_count_below_concat(a, om, g, x);
        lemma_count_below_concat(a + nm, b, g, x);
        lemma_count_below_concat(a, nm, g, x);
        lemma_count_below_concat(seq![old.children@[i]], seq![old.children@[i + 1]], g, x);
        lemma_count_below_concat(seq![new.children@[i]], seq![new.children@[i + 1]], g, x);
        lemma_count_below_one(old.children@[i], g, x);
        lemma_count_below_one(old.children@[i + 1], g, x);
        lemma_count_below_one(new.children@[i], g, x);
        lemma_count_below_one(new.children@[i + 1], g, x);
    }
}

/// A node in which a key and the children on both its sides gave way to
/// one child that holds what the three held is well-formed, with one key
/// fewer, and holds what it held.
proof fn lemma_pair_merged(old: Node, new: Node, h: nat, g: nat, min: nat, i: int)
    requires
        h == g + 1,
        min >= 1,
        old.wf(h, min),
        0 <= i < old.keys@.len(),
        new.keys@ == old.keys@.remove(i),
        new.children@ == old.children@.remove(i + 1).update(i, new.children@[i]),
        new.children@[i].wf(g, (T - 1) as nat),
        new.children@[i].within(g, floor_of(old.keys@, i), roof_of(old.keys@, i + 1)),
        forall|x: i32|
            (#[trigger] new.children@[i].count(g, x)) == old.children@[i].count(g, x)
                + old.children@[i + 1].count(g, x) + one_if(x, old.keys@[i]),
    ensures
        new.wf(h, (min - 1) as nat),
        forall|x: i32| new.count(h, x) == old.count(h, x),
{
    assert(ascending(new.keys@)) by {
        assert forall|a: int, b: int| 0 <= a <= b < new.keys@.len() implies new.keys@[a]
            <= new.keys@[b] by {
            let a0 = if a < i { a } else { a + 1 };
            let b0 = if b < i { b } else { b + 1 };
            assert(old.keys@[a0] <= old.keys@[b0]);
        }
    }
    assert forall|j: int| 0 <= j < new.children@.len() implies (#[trigger] new.children@[j]).wf(
        g,
        (T - 1) as nat,
    ) && new.children@[j].within(g, floor_of(new.keys@, j), roof_of(new.keys@, j)) by {
        if j < i {
            assert(new.children@[j] == old.children@[j]);
            assert(old.children@[j].within(g, floor_of(old.keys@, j), roof_of(old.keys@, j)));
        } else if j > i {
            assert(new.children@[j] == old.children@[j + 1]);
            assert(old.children@[j + 1].within(
                g,
                floor_of(old.keys@, j + 1),
                roof_of(old.keys@, j + 1),
            ));
        }
    }
    assert forall|x: i32| new.count(h, x) == old.count(h, x) by {
        vstd::seq_lib::to_multiset_remove(old.keys@, i);
        lemma_times_positive(old.keys@, old.keys@[i]);
        assert(times(old.keys@, old.keys@[i]) > 0);
        assert(times(new.keys@, x) + one_if(x, old.keys@[i]) == times(old.keys@, x));
        let a = old.children@.subrange(0, i);
        let b = old.children@.subrange(i + 2, old.children@.len() as int);
        let om = seq![old.children@[i]] + seq![old.children@[i + 1]];
        let nm = seq![new.children@[i]];
        assert(old.children@ =~= (a + om) + b);
        assert(new.children@ =~= (a + nm) + b);
        lemma_count_below_concat(a + om, b, g, x);
        lemma_count_below_concat(a, om, g, x);
        lemma_count_below_concat(a + nm, b, g, x);
        lemma_count_below_concat(a, nm, g, x);
        lemma_count_below_concat(seq![old.children@[i]], seq![old.children@[i + 1]], g, x);
        lemma_count_below_one(old.children@[i], g, x);
        lemma_count_below_one(old.children@[i + 1], g, x);
        lemma_count_below_one(new.children@[i], g, x);
    }
}

impl Node {
    /// Takes the key at place `at` out of a leaf.
    fn remove_leaf(&mut self, at: usize, Ghost(min): Ghost<nat>) -> (r: bool)
        requires
            min >= 1,
            old(self).wf(0, min),
            at < old(self).keys@.len(),
        ensures
            final(self).wf(0, (min - 1) as nat),
            forall|x: i32|
                final(self).count(0, x) + one_if(x, old(self).keys@[at as int]) == old(
                    self,
                ).count(0, x),
            r,
    {
        self.keys.remove(at);
        proof {
            vstd::seq_lib::to_multiset_remove(old(self).keys@, at as int);
            lemma_times_positive(old(self).keys@, old(self).keys@[at as int]);
            assert(times(old(self).keys@, old(self).keys@[at as int]) > 0);
            assert(ascending(self.keys@)) by {
                assert forall|a: int, b: int| 0 <= a <= b < self.keys@.len() implies self.keys@[a]
                    <= self.keys@[b] by {
                    let a0 = if a < at { a } else { a + 1 };
                    let b0 = if b < at { b } else { b + 1 };
                    assert(old(self).keys@[a0] <= old(self).keys@[b0]);
                }
            }
        }
        true
    }

    /// Joins the children on both sides of key `at`, and the key, into one
    /// child.
    fn merge(&mut self, at: usize, Ghost(h): Ghost<nat>, Ghost(min): Ghost<nat>)
        requires
            h > 0,
            min >= 1,
            old(self).wf(h, min),
            at < old(self).keys@.len(),
            old(self).children@[at as int].keys@.len() + old(self).children@[at + 1].keys@.len()
                + 1 <= 2 * T - 1,
        ensures
            final(self).wf(h, (min - 1) as nat),
            forall|x: i32| final(self).count(h, x) == old(self).count(h, x),
            final(self).keys@ == old(self).keys@.remove(at as int),
            final(self).children@.len() == old(self).children@.len() - 1,
            final(self).children@[at as int].keys@.len() == old(self).children@[at as int].keys@.len()
                + old(self).children@[at + 1].keys@.len() + 1,
            final(self).children@[at as int].count((h - 1) as nat, old(self).keys@[at as int]) > 0,
    {
        let ghost g = (h - 1) as nat;
        let ghost left = *old(self).children@[at as int];
        let ghost right = *old(self).children@[at + 1];
        let ghost lo = floor_of(old(self).keys@, at as int);
        let ghost hi = roof_of(old(self).keys@, at + 1);
        proof {
            assert(old(self).children@[at as int].wf(g, (T - 1) as nat));
            assert(old(self).children@[at + 1].wf(g, (T - 1) as nat));
            assert(old(self).children@[at as int].within(
                g,
                floor_of(old(self).keys@, at as int),
                roof_of(old(self).keys@, at as int),
            ));
            assert(old(self).children@[at + 1].within(
                g,
                floor_of(old(self).keys@, at + 1),
                roof_of(old(self).keys@, at + 1),
            ));
            assert(old(self).keys@[at as int] <= hi) by {
                if at + 1 < old(self).keys@.len() {
                    assert(old(self).keys@[at as int] <= old(self).keys@[at + 1]);
                }
            }
            assert(lo <= old(self).keys@[at as int]) by {
                if at > 0 {
                    assert(old(self).keys@[at - 1] <= old(self).keys@[at as int]);
                }
            }
        }
        let mut sibling = self.children.remove(at + 1);
        let key = self.keys.remove(at);
        let child = &mut self.children[at];
        child.keys.push(key);
        child.keys.append(&mut sibling.keys);
        if !child.is_leaf() {
            child.children.append(&mut sibling.children);
        }
        proof {
            let joined = *self.children@[at as int];
            assert(joined.keys@ =~= (left.keys@ + seq![key]) + right.keys@);
            assert(joined.children@ =~= left.children@ + right.children@);
            lemma_wf_weaken(left, g, (T - 1) as nat, 0);
            lemma_wf_weaken(right, g, (T - 1) as nat, 0);
            lemma_joined(left, right, key, joined, g, lo, hi);
            assert(joined.count(g, key) == left.count(g, key) + right.count(g, key) + one_if(
                key,
                key,
            ));
            lemma_wf_weaken(joined, g, 0, (T - 1) as nat);
            assert(self.children@ =~= old(self).children@.remove(at + 1).update(
                at as int,
                self.children@[at as int],
            ));
            lemma_pair_merged(*old(self), *self, h, g, min, at as int);
        }
    }
}

/// What the last key and the last child of the child before bring to the
/// child after, when the key between the two goes down and that last key
/// goes up.
proof fn lemma_borrowed_prev(
    sib: Node,
    sib2: Node,
    kid: Node,
    kid2: Node,
    sep: i32,
    g: nat,
    lo: int,
    hi: int,
)
    requires
        sib.wf(g, (T - 1) as nat),
        sib.keys@.len() >= T,
        kid.wf(g, (T - 1) as nat),
        kid.keys@.len() < 2 * T - 1,
        sib.within(g, lo, sep as int),
        kid.within(g, sep as int, hi),
        sib2.keys@ == sib.keys@.drop_last(),
        kid2.keys@ == seq![sep] + kid.keys@,
        g == 0 ==> sib2.children@.len() == 0 && kid2.children@.len() == 0,
        g > 0 ==> sib2.children@ == sib.children@.drop_last() && kid2.children@ == seq![
            sib.children@.last(),
        ] + kid.children@,
    ensures
        sib2.wf(g, (T - 1) as nat),
        kid2.wf(g, (T - 1) as nat),
        lo <= sib.keys@.last() <= sep,
        sib2.within(g, lo, sib.keys@.last() as int),
        kid2.within(g, sib.keys@.last() as int, hi),
        forall|x: i32|
            (#[trigger] sib2.count(g, x)) + kid2.count(g, x) + one_if(x, sib.keys@.last())
                == sib.count(g, x) + kid.count(g, x) + one_if(x, sep),
{
    let n = sib.keys@.len() as int;
    let up = sib.keys@.last();
    let rest = Parts {
        keys: Seq::empty(),
        children: if g > 0 {
            seq![sib.children@.last()]
        } else {
            Seq::empty()
        },
    };
    lemma_parts(sib, g);
    lemma_parts(sib2, g);
    lemma_parts(kid, g);
    lemma_parts(kid2, g);
    assert(sib.parts().wf(g, 0));
    assert(sib2.parts().keys =~= sib.parts().keys.subrange(0, n - 1));
    assert(rest.keys =~= sib.parts().keys.subrange(n, n));
    if g > 0 {
        assert(sib2.parts().children =~= sib.parts().children.subrange(0, n));
        assert(rest.children =~= sib.parts().children.subrange(n, n + 1));
    }
    lemma_parted_p(sib.parts(), sib2.parts(), rest, n - 1, g, lo, sep as int);
    lemma_within_parts(kid, g, sep as int, hi);
    assert(sep <= kid.keys@[0] <= hi);
    assert(kid.parts().wf(g, 0));
    assert(kid2.parts().keys =~= (rest.keys + seq![sep]) + kid.parts().keys);
    assert(kid2.parts().children =~= rest.children + kid.parts().children);
    lemma_joined_p(rest, kid.parts(), sep, kid2.parts(), g, up as int, hi);
    assert(sib2.parts().wf(g, (T - 1) as nat));
    assert(kid2.parts().wf(g, (T - 1) as nat));
    assert forall|x: i32|
        (#[trigger] sib2.count(g, x)) + kid2.count(g, x) + one_if(x, up) == sib.count(g, x)
            + kid.count(g, x) + one_if(x, sep) by {
        assert(sib.parts().count(g, x) == sib2.parts().count(g, x) + rest.count(g, x) + one_if(
            x,
            up,
        ));
        assert(kid2.parts().count(g, x) == rest.count(g, x) + kid.parts().count(g, x) + one_if(
            x,
            sep,
        ));
    }
}

/// What the first key and the first child of the child after bring to the
/// child before, when the key between the two goes down and that first key
/// goes up.
proof fn lemma_borrowed_next(
    sib: Node,
    sib2: Node,
    kid: Node,
    kid2: Node,
    sep: i32,
    g: nat,
    lo: int,
    hi: int,
)
    requires
        sib.wf(g, (T - 1) as nat),
        sib.keys@.len() >= T,
        kid.wf(g, (T - 1) as nat),
        kid.keys@.len() < 2 * T - 1,
        sib.within(g, sep as int, hi),
        kid.within(g, lo, sep as int),
        sib2.keys@ == sib.keys@.drop_first(),
        kid2.keys@ == kid.keys@.push(sep),
        g == 0 ==> sib2.children@.len() == 0 && kid2.children@.len() == 0,
        g > 0 ==> sib2.children@ == sib.children@.drop_first() && kid2.children@
            == kid.children@.push(sib.children@.first()),
    ensures
        sib2.wf(g, (T - 1) as nat),
        kid2.wf(g, (T - 1) as nat),
        sep <= sib.keys@.first() <= hi,
        sib2.within(g, sib.keys@.first() as int, hi),
        kid2.within(g, lo, sib.keys@.first() as int),
        forall|x: i32|
            (#[trigger] sib2.count(g, x)) + kid2.count(g, x) + one_if(x, sib.keys@.first())
                == sib.count(g, x) + kid.count(g, x) + one_if(x, sep),
{
    let n = sib.keys@.len() as int;
    let up = sib.keys@.first();
    let rest = Parts {
        keys: Seq::empty(),
        children: if g > 0 {
            seq![sib.children@.first()]
        } else {
            Seq::empty()
        },
    };
    lemma_parts(sib, g);
    lemma_parts(sib2, g);
    lemma_parts(kid, g);
    lemma_parts(kid2, g);
    assert(sib.parts().wf(g, 0));
    assert(rest.keys =~= sib.parts().keys.subrange(0, 0));
    assert(sib2.parts().keys =~= sib.parts().keys.subrange(1, n));
    if g > 0 {
        assert(rest.children =~= sib.parts().children.subrange(0, 1));
        assert(sib2.parts().children =~= sib.parts().children.subrange(1, n + 1));
    }
    lemma_parted_p(sib.parts(), rest, sib2.parts(), 0, g, sep as int, hi);
    lemma_within_parts(kid, g, lo, sep as int);
    assert(lo <= kid.keys@[0] <= sep);
    assert(kid.parts().wf(g, 0));
    assert(kid2.parts().keys =~= (kid.parts().keys + seq![sep]) + rest.keys);
    assert(kid2.parts().children =~= kid.parts().children + rest.children);
    lemma_joined_p(kid.parts(), rest, sep, kid2.parts(), g, lo, up as int);
    assert(sib2.parts().wf(g, (T - 1) as nat));
    assert(kid2.parts().wf(g, (T - 1) as nat));
    assert forall|x: i32|
        (#[trigger] sib2.count(g, x)) + kid2.count(g, x) + one_if(x, up) == sib.count(g, x)
            + kid.count(g, x) + one_if(x, sep) by {
        assert(sib.parts().count(g, x) == rest.count(g, x) + sib2.parts().count(g, x) + one_if(
            x,
            up,
        ));
        assert(kid2.parts().count(g, x) == kid.parts().count(g, x) + rest.count(g, x) + one_if(
            x,
            sep,
        ));
    }
}

/// A key that lies strictly between the keys of a node can lie below one
/// child only.
proof fn lemma_count_at(node: Node, h: nat, g: nat, p: int, k: i32)
    requires
        h == g + 1,
        node.wf(h, 0),
        parts_at(node.keys@, p, k),
    ensures
        node.count(h, k) == node.children@[p].count(g, k),
{
    let kids = node.children@;
    lemma_times_positive(node.keys@, k);
    assert(times(node.keys@, k) == 0) by {
        if times(node.keys@, k) > 0 {
            let i = choose|i: int| 0 <= i < node.keys@.len() && node.keys@[i] == k;
            assert(node.keys@[i] < k || node.keys@[i] > k);
        }
    }
    assert forall|i: int| 0 <= i < kids.len() && i != p implies (#[trigger] kids[i]).count(g, k)
        == 0 by {
        assert(kids[i].within(g, floor_of(node.keys@, i), roof_of(node.keys@, i)));
        if i < p {
            assert(node.keys@[i] < k);
        } else {
            assert(node.keys@[i - 1] > k);
        }
    }
    lemma_count_below_split(kids, g, k, p);
    lemma_count_below_none(kids.subrange(0, p), g, k, p as nat);
    lemma_count_below_none(kids.subrange(p + 1, kids.len() as int), g, k, (kids.len() - p - 1) as nat);
}

/// A leaf that holds no key equal to `k` does not hold `k`.
proof fn lemma_count_leaf(node: Node, p: int, k: i32)
    requires
        node.wf(0, 0),
        parts_at(node.keys@, p, k),
    ensures
        node.count(0, k) == 0,
{
    lemma_times_positive(node.keys@, k);
    if times(node.keys@, k) > 0 {
        let i = choose|i: int| 0 <= i < node.keys@.len() && node.keys@[i] == k;
        assert(node.keys@[i] < k || node.keys@[i] > k);
    }
}

/// A tree that holds no more than another, which lies within bounds, lies
/// within them.
proof fn lemma_within_fewer(less: Node, more: Node, h: nat, lo: int, hi: int)
    requires
        more.within(h, lo, hi),
        forall|x: i32| #[trigger] less.count(h, x) <= more.count(h, x),
    ensures
        less.within(h, lo, hi),
{
    assert forall|x: i32| less.count(h, x) > 0 implies lo <= x <= hi by {
        assert(less.count(h, x) <= more.count(h, x));
    }
}

impl Node {
    /// Moves the last key of the child before child `at` up into this
    /// node, and the key between the two children down to the front of
    /// child `at`; the last child of the one becomes the first of the
    /// other.
    fn borrow_prev(&mut self, at: usize, Ghost(h): Ghost<nat>, Ghost(min): Ghost<nat>)
        requires
            h > 0,
            old(self).wf(h, min),
            0 < at < old(self).children@.len(),
            old(self).children@[at - 1].keys@.len() >= T,
            old(self).children@[at as int].keys@.len() < 2 * T - 1,
        ensures
            final(self).wf(h, min),
            forall|x: i32| final(self).count(h, x) == old(self).count(h, x),
            final(self).keys@ == old(self).keys@.update(at - 1, final(self).keys@[at - 1]),
            final(self).keys@[at - 1] <= old(self).keys@[at - 1],
            final(self).children@.len() == old(self).children@.len(),
            final(self).children@[at as int].keys@.len() == old(self).children@[at as int].keys@.len()
                + 1,
    {
        let ghost g = (h - 1) as nat;
        let ghost sib = *old(self).children@[at - 1];
        let ghost kid = *old(self).children@[at as int];
        let ghost lo = floor_of(old(self).keys@, at - 1);
        let ghost hi = roof_of(old(self).keys@, at as int);
        proof {
            assert(old(self).children@[at - 1].wf(g, (T - 1) as nat));
            assert(old(self).children@[at as int].wf(g, (T - 1) as nat));
            assert(old(self).children@[at - 1].within(
                g,
                floor_of(old(self).keys@, at - 1),
                roof_of(old(self).keys@, at - 1),
            ));
            assert(old(self).children@[at as int].within(
                g,
                floor_of(old(self).keys@, at as int),
                roof_of(old(self).keys@, at as int),
            ));
        }
        let sibling = &mut self.children[at - 1];
        let last_key = sibling.keys.pop().unwrap();
        let last_child = sibling.children.pop();
        let sep = self.keys[at - 1];
        self.keys[at - 1] = last_key;
        let child = &mut self.children[at];
        child.keys.insert(0, sep);
        if let Some(c) = last_child {
            child.children.insert(0, c);
        }
        proof {
            let sib2 = *self.children@[at - 1];
            let kid2 = *self.children@[at as int];
            assert(sib2.keys@ =~= sib.keys@.drop_last());
            assert(kid2.keys@ =~= seq![sep] + kid.keys@);
            if g > 0 {
                assert(sib2.children@ =~= sib.children@.drop_last());
                assert(kid2.children@ =~= seq![sib.children@.last()] + kid.children@);
            }
            lemma_borrowed_prev(sib, sib2, kid, kid2, sep, g, lo, hi);
            assert(self.children@ =~= old(self).children@.update(
                at - 1,
                self.children@[at - 1],
            ).update(at as int, self.children@[at as int]));
            lemma_pair_replaced(*old(self), *self, h, g, min, at - 1);
            assert forall|x: i32| self.count(h, x) == old(self).count(h, x) by {
                assert(sib2.count(g, x) + kid2.count(g, x) + one_if(x, last_key) == sib.count(g, x)
                    + kid.count(g, x) + one_if(x, sep));
                assert(self.count(h, x) + sib.count(g, x) + kid.count(g, x) + one_if(x, sep)
                    == old(self).count(h, x) + self.children@[at - 1].count(g, x)
                    + self.children@[at as int].count(g, x) + one_if(x, last_key));
            }
        }
    }

    /// Moves the first key of the child after child `at` up into this
    /// node, and the key between the two children down to the end of child
    /// `at`; the first child of the one becomes the last of the other.
    fn borrow_next(&mut self, at: usize, Ghost(h): Ghost<nat>, Ghost(min): Ghost<nat>)
        requires
            h > 0,
            old(self).wf(h, min),
            at < old(self).keys@.len(),
            old(self).children@[at + 1].keys@.len() >= T,
            old(self).children@[at as int].keys@.len() < 2 * T - 1,
        ensures
            final(self).wf(h, min),
            forall|x: i32| final(self).count(h, x) == old(self).count(h, x),
            final(self).keys@ == old(self).keys@.update(at as int, final(self).keys@[at as int]),
            final(self).keys@[at as int] >= old(self).keys@[at as int],
            final(self).children@.len() == old(self).children@.len(),
            final(self).children@[at as int].keys@.len() == old(self).children@[at as int].keys@.len()
                + 1,
    {
        let ghost g = (h - 1) as nat;
        let ghost sib = *old(self).children@[at + 1];
        let ghost kid = *old(self).children@[at as int];
        let ghost lo = floor_of(old(self).keys@, at as int);
        let ghost hi = roof_of(old(self).keys@, at + 1);
        proof {
            assert(old(self).children@[at + 1].wf(g, (T - 1) as nat));
            assert(old(self).children@[at as int].wf(g, (T - 1) as nat));
            assert(old(self).children@[at + 1].within(
                g,
                floor_of(old(self).keys@, at + 1),
                roof_of(old(self).keys@, at + 1),
            ));
            assert(old(self).children@[at as int].within(
                g,
                floor_of(old(self).keys@, at as int),
                roof_of(old(self).keys@, at as int),
            ));
        }
        let sibling = &mut self.children[at + 1];
        let next_key = sibling.keys.remove(0);
        let next_child = if sibling.children.len() > 0 {
            Some(sibling.children.remove(0))
        } else {
            None
        };
        let sep = self.keys[at];
        self.keys[at] = next_key;
        let child = &mut self.children[at];
        child.keys.push(sep);
        if let Some(c) = next_child {
            child.children.push(c);
        }
        proof {
            let sib2 = *self.children@[at + 1];
            let kid2 = *self.children@[at as int];
            assert(sib2.keys@ =~= sib.keys@.drop_first());
            if g > 0 {
                assert(sib2.children@ =~= sib.children@.drop_first());
            }
            lemma_borrowed_next(sib, sib2, kid, kid2, sep, g, lo, hi);
            assert(self.children@ =~= old(self).children@.update(
                at as int,
                self.children@[at as int],
            ).update(at + 1, self.children@[at + 1]));
            lemma_pair_replaced(*old(self), *self, h, g, min, at as int);
            assert forall|x: i32| self.count(h, x) == old(self).count(h, x) by {
                assert(sib2.count(g, x) + kid2.count(g, x) + one_if(x, next_key) == sib.count(g, x)
                    + kid.count(g, x) + one_if(x, sep));
                assert(self.count(h, x) + kid.count(g, x) + sib.count(g, x) + one_if(x, sep)
                    == old(self).count(h, x) + self.children@[at as int].count(g, x)
                    + self.children@[at + 1].count(g, x) + one_if(x, next_key));
            }
        }
    }

    /// Brings child `at`, which holds the least a node may hold, to hold
    /// more: by a key from a neighbour that can spare one, or else by
    /// joining it with a neighbour.
    fn fill(&mut self, at: usize, Ghost(h): Ghost<nat>, Ghost(min): Ghost<nat>, Ghost(k): Ghost<i32>)
        requires
            h > 0,
            min >= 1,
            old(self).wf(h, min),
            at < old(self).children@.len(),
            old(self).children@[at as int].keys@.len() < T,
            parts_at(old(self).keys@, at as int, k),
        ensures
            final(self).wf(h, (min - 1) as nat),
            forall|x: i32| final(self).count(h, x) == old(self).count(h, x),
            final(self).keys@.len() == old(self).keys@.len() || final(self).keys@.len() + 1 == old(
                self,
            ).keys@.len(),
            ({
                let idx = if at > final(self).keys@.len() {
                    at - 1
                } else {
                    at as int
                };
                &&& 0 <= idx < final(self).children@.len()
                &&& final(self).children@[idx].keys@.len() >= T
                &&& parts_at(final(self).keys@, idx, k)
            }),
    {
        let ghost g = (h - 1) as nat;
        proof {
            assert(old(self).children@[at as int].wf(g, (T - 1) as nat));
            if at > 0 {
                assert(old(self).children@[at - 1].wf(g, (T - 1) as nat));
            }
            if at < old(self).keys@.len() {
                assert(old(self).children@[at + 1].wf(g, (T - 1) as nat));
            }
        }
        if at > 0 && self.children[at - 1].keys.len() >= T {
            self.borrow_prev(at, Ghost(h), Ghost(min));
        } else if at < self.keys.len() && self.children[at + 1].keys.len() >= T {
            self.borrow_next(at, Ghost(h), Ghost(min));
        } else if at < self.keys.len() {
            self.merge(at, Ghost(h), Ghost(min));
        } else {
            self.merge(at - 1, Ghost(h), Ghost(min));
        }
    }

    /// Takes the key at place `at` out of an inner node: puts in its place
    /// the greatest of what lies below the child before it, or the least
    /// of what lies below the child after it, whichever child can spare a
    /// key, and takes that out below; or else joins the two children about
    /// the key and takes the key out of the joined child.
    fn remove_non_leaf(&mut self, at: usize, Ghost(h): Ghost<nat>, Ghost(min): Ghost<nat>) -> (r:
        bool)
        requires
            h > 0,
            min >= 1,
            old(self).wf(h, min),
            at < old(self).keys@.len(),
        ensures
            final(self).wf(h, (min - 1) as nat),
            forall|x: i32|
                final(self).count(h, x) + one_if(x, old(self).keys@[at as int]) == old(self).count(
                    h,
                    x,
                ),
            r,
        decreases h, 0nat,
    {
        let ghost g = (h - 1) as nat;
        let ghost lo = floor_of(old(self).keys@, at as int);
        let ghost hi = roof_of(old(self).keys@, at + 1);
        let key = self.keys[at];
        proof {
            assert(old(self).children@[at as int].wf(g, (T - 1) as nat));
            assert(old(self).children@[at + 1].wf(g, (T - 1) as nat));
            assert(old(self).children@[at as int].within(
                g,
                floor_of(old(self).keys@, at as int),
                roof_of(old(self).keys@, at as int),
            ));
            assert(old(self).children@[at + 1].within(
                g,
                floor_of(old(self).keys@, at + 1),
                roof_of(old(self).keys@, at + 1),
            ));
            assert(key <= hi) by {
                if at + 1 < old(self).keys@.len() {
                    assert(old(self).keys@[at as int] <= old(self).keys@[at + 1]);
                }
            }
            assert(lo <= key) by {
                if at > 0 {
                    assert(old(self).keys@[at - 1] <= old(self).keys@[at as int]);
                }
            }
        }
        if self.children[at].keys.len() >= T {
            let pred = self.predecessor(at, Ghost(h), Ghost(min));
            let ghost kid = *self.children@[at as int];
            self.keys[at] = pred;
            proof {
                lemma_wf_weaken(kid, g, (T - 1) as nat, T as nat);
            }
            let r = self.children[at].remove(&pred, Ghost(g), Ghost(T as nat));
            proof {
                let kid2 = *self.children@[at as int];
                let other = *self.children@[at + 1];
                lemma_within_fewer(kid2, kid, g, lo, pred as int);
                lemma_within_widen(other, g, key as int, hi, pred as int, hi);
                assert(self.children@ =~= old(self).children@.update(
                    at as int,
                    self.children@[at as int],
                ).update(at + 1, self.children@[at + 1]));
                lemma_pair_replaced(*old(self), *self, h, g, min, at as int);
                lemma_wf_weaken(*self, h, min, (min - 1) as nat);
                assert forall|x: i32|
                    self.count(h, x) + one_if(x, key) == old(self).count(h, x) by {
                    assert(kid2.count(g, x) + one_if(x, pred) == kid.count(g, x));
                    assert(self.count(h, x) + kid.count(g, x) + other.count(g, x) + one_if(x, key)
                        == old(self).count(h, x) + self.children@[at as int].count(g, x)
                        + self.children@[at + 1].count(g, x) + one_if(x, pred));
                }
            }
            r
        } else if self.children[at + 1].keys.len() >= T {
            let succ = self.successor(at + 1, Ghost(h), Ghost(min));
            let ghost kid = *self.children@[at + 1];
            self.keys[at] = succ;
            proof {
                lemma_wf_weaken(kid, g, (T - 1) as nat, T as nat);
            }
            let r = self.children[at + 1].remove(&succ, Ghost(g), Ghost(T as nat));
            proof {
                let kid2 = *self.children@[at + 1];
                let other = *self.children@[at as int];
                lemma_within_fewer(kid2, kid, g, succ as int, hi);
                lemma_within_widen(other, g, lo, key as int, lo, succ as int);
                assert(self.children@ =~= old(self).children@.update(
                    at as int,
                    self.children@[at as int],
                ).update(at + 1, self.children@[at + 1]));
                lemma_pair_replaced(*old(self), *self, h, g, min, at as int);
                lemma_wf_weaken(*self, h, min, (min - 1) as nat);
                assert forall|x: i32|
                    self.count(h, x) + one_if(x, key) == old(self).count(h, x) by {
                    assert(kid2.count(g, x) + one_if(x, succ) == kid.count(g, x));
                    assert(self.count(h, x) + other.count(g, x) + kid.count(g, x) + one_if(x, key)
                        == old(self).count(h, x) + self.children@[at as int].count(g, x)
                        + self.children@[at + 1].count(g, x) + one_if(x, succ));
                }
            }
            r
        } else {
            self.merge(at, Ghost(h), Ghost(min));
            let ghost mid = *self;
            let ghost kid = *self.children@[at as int];
            proof {
                assert(mid.children@[at as int].wf(g, (T - 1) as nat));
                assert(mid.children@[at as int].within(
                    g,
                    floor_of(mid.keys@, at as int),
                    roof_of(mid.keys@, at as int),
                ));
                lemma_wf_weaken(kid, g, (T - 1) as nat, T as nat);
                assert(kid.count(g, key) > 0);
            }
            let r = self.children[at].remove(&key, Ghost(g), Ghost(T as nat));
            proof {
                let kid2 = *self.children@[at as int];
                lemma_within_fewer(
                    kid2,
                    kid,
                    g,
                    floor_of(mid.keys@, at as int),
                    roof_of(mid.keys@, at as int),
                );
                assert(self.children@ =~= mid.children@.update(at as int, self.children@[at as int]));
                lemma_child_replaced(mid, *self, h, g, (min - 1) as nat, at as int);
                assert forall|x: i32|
                    self.count(h, x) + one_if(x, key) == old(self).count(h, x) by {
                    assert(kid2.count(g, x) + one_if(x, key) == kid.count(g, x));
                    assert(self.count(h, x) + kid.count(g, x) == mid.count(h, x)
                        + self.children@[at as int].count(g, x));
                }
            }
            r
        }
    }

    /// Takes `k` out of the tree under this node, once, if it is there.
    /// Returns whether it was.
    fn remove(&mut self, k: &i32, Ghost(h): Ghost<nat>, Ghost(min): Ghost<nat>) -> (r: bool)
        requires
            min >= 1,
            old(self).wf(h, min),
        ensures
            final(self).wf(h, (min - 1) as nat),
            r == (old(self).count(h, *k) > 0),
            forall|x: i32|
                final(self).count(h, x) + (if r {
                    one_if(x, *k)
                } else {
                    0
                }) == old(self).count(h, x),
        decreases h, 1nat,
    {
        match self.search_in_node(k) {
            Ok(p) => {
                proof {
                    lemma_times_positive(self.keys@, *k);
                    assert(self.keys@[p as int] == *k);
                    assert(times(self.keys@, *k) > 0);
                }
                if self.is_leaf() {
                    self.remove_leaf(p, Ghost(min))
                } else {
                    self.remove_non_leaf(p, Ghost(h), Ghost(min))
                }
            },
            Err(p) => {
                if !self.is_leaf() {
                    let ghost g = (h - 1) as nat;
                    let is_last = self.keys.len() == p;
                    proof {
                        lemma_wf_weaken(*self, h, min, 0);
                        lemma_count_at(*self, h, g, p as int, *k);
                        assert(self.children@[p as int].wf(g, (T - 1) as nat));
                    }
                    let ghost mut filled = false;
                    if self.children[p].keys.len() < T {
                        self.fill(p, Ghost(h), Ghost(min), Ghost(*k));
                        proof {
                            filled = true;
                        }
                    }
                    let idx = if is_last && p > self.keys.len() {
                        p - 1
                    } else {
                        p
                    };
                    let ghost mid = *self;
                    let ghost kid = *self.children@[idx as int];
                    proof {
                        if !filled {
                            lemma_wf_weaken(mid, h, min, (min - 1) as nat);
                        }
                        lemma_wf_weaken(mid, h, (min - 1) as nat, 0);
                        lemma_count_at(mid, h, g, idx as int, *k);
                        assert(mid.children@[idx as int].wf(g, (T - 1) as nat));
                        assert(mid.children@[idx as int].within(
                            g,
                            floor_of(mid.keys@, idx as int),
                            roof_of(mid.keys@, idx as int),
                        ));
                        lemma_wf_weaken(kid, g, (T - 1) as nat, T as nat);
                    }
                    let r = self.children[idx].remove(k, Ghost(g), Ghost(T as nat));
                    proof {
                        let kid2 = *self.children@[idx as int];
                        lemma_within_fewer(
                            kid2,
                            kid,
                            g,
                            floor_of(mid.keys@, idx as int),
                            roof_of(mid.keys@, idx as int),
                        );
                        assert(self.children@ =~= mid.children@.update(
                            idx as int,
                            self.children@[idx as int],
                        ));
                        lemma_child_replaced(mid, *self, h, g, (min - 1) as nat, idx as int);
                        assert forall|x: i32|
                            self.count(h, x) + (if r {
                                one_if(x, *k)
                            } else {
                                0
                            }) == old(self).count(h, x) by {
                            assert(kid2.count(g, x) + (if r {
                                one_if(x, *k)
                            } else {
                                0
                            }) == kid.count(g, x));
                            assert(self.count(h, x) + kid.count(g, x) == mid.count(h, x)
                                + self.children@[idx as int].count(g, x));
                        }
                    }
                    r
                } else {
                    proof {
                        lemma_wf_weaken(*self, h, min, 0);
                        lemma_count_leaf(*self, p as int, *k);
                        lemma_wf_weaken(*self, h, min, (min - 1) as nat);
                    }
                    false
                }
            },
        }
    }
}

/// A B-tree of numbers.
#[derive(Debug)]
pub struct BTree {
    root: Option<Box<Node>>,
}

impl BTree {
    /// The height of the tree.
    pub closed spec fn height(&self) -> nat {
        choose|h: nat| self.root.unwrap().wf(h, 1)
    }

    /// The tree is empty, or its root heads a well-formed tree and holds a
    /// key.
    pub closed spec fn wf(&self) -> bool {
        self.root is Some ==> self.root.unwrap().wf(self.height(), 1)
    }

    /// How often `x` is in the tree.
    pub closed spec fn count(&self, x: i32) -> nat {
        match self.root {
            Some(root) => root.count(self.height(), x),
            None => 0,
        }
    }

    /// The height that the root is well-formed at is the height of the
    /// tree.
    proof fn lemma_height(&self, h: nat)
        requires
            self.root is Some,
            self.root.unwrap().wf(h, 1),
        ensures
            self.wf(),
            self.height() == h,
    {
        lemma_height_unique(*self.root.unwrap(), h, 1, self.height(), 1);
    }

    /// An empty tree.
    pub fn new() -> (t: Self)
        ensures
            t.wf(),
            forall|x: i32| t.count(x) == 0,
    {
        BTree { root: None }
    }

    /// Tells whether `k` is in the tree.
    pub fn search(&self, k: &i32) -> (r: bool)
        requires
            self.wf(),
        ensures
            r == (self.count(*k) > 0),
    {
        let mut cur: &Node = match &self.root {
            Some(root) => root,
            None => {
                return false;
            },
        };
        let ghost mut h = self.height();
        proof {
            lemma_wf_weaken(*cur, h, 1, 0);
        }
        loop
            invariant
                cur.wf(h, 0),
                (self.count(*k) > 0) == (cur.count(h, *k) > 0),
            decreases h,
        {
            match cur.search_in_node(k) {
                Ok(i) => {
                    proof {
                        lemma_times_positive(cur.keys@, *k);
                    }
                    return true;
                },
                Err(p) => {
                    proof {
                        lemma_times_positive(cur.keys@, *k);
                    }
                    if cur.is_leaf() {
                        return false;
                    }
                    proof {
                        let g = (h - 1) as nat;
                        let kids = cur.children@;
                        assert forall|i: int| 0 <= i < kids.len() && i != p implies (
                        #[trigger] kids[i]).count(g, *k) == 0 by {
                            assert(kids[i].within(g, floor_of(cur.keys@, i), roof_of(cur.keys@, i)));
                        }
                        lemma_count_below_split(kids, g, *k, p as int);
                        lemma_count_below_none(kids.subrange(0, p as int), g, *k, p as nat);
                        lemma_count_below_none(
                            kids.subrange(p + 1, kids.len() as int),
                            g,
                            *k,
                            (kids.len() - p - 1) as nat,
                        );
                        assert(kids[p as int].wf(g, (T - 1) as nat));
                        lemma_wf_weaken(*kids[p as int], g, (T - 1) as nat, 0);
                        h = g;
                    }
                    cur = &cur.children[p];
                },
            }
        }
    }

    /// Puts `k` into the tree, once more if it is there already. Returns
    /// `false`.
    pub fn insert(&mut self, k: i32) -> (r: bool)
        requires
            old(self).wf(),
        ensures
            final(self).wf(),
            forall|x: i32| final(self).count(x) == old(self).count(x) + one_if(x, k),
            !r,
    {
        let ghost h = self.height();
        match self.root.take() {
            Some(mut root) => {
                if root.is_full() {
                    let ghost full = *root;
                    let mut n = Box::new(Node::new());
                    n.children.push(root);
                    proof {
                        assert(n.children@ =~= seq![Box::new(full)]);
                        assert(full.within(h, i32::MIN as int, i32::MAX as int));
                        lemma_wf_weaken(full, h, 1, (T - 1) as nat);
                        assert(n.wf(h + 1, 0));
                        assert forall|x: i32| n.count(h + 1, x) == full.count(h, x) by {
                            lemma_count_below_one(Box::new(full), h, x);
                            lemma_times_one(k, x);
                            assert(times(n.keys@, x) == 0);
                        }
                    }
                    n.split_child(0, Ghost(h + 1), Ghost(0));
                    let r = n.insert_non_full(k, Ghost(h + 1), Ghost(0));
                    self.root = Some(n);
                    proof {
                        assert(self.root.unwrap().wf(h + 1, 1));
                        self.lemma_height(h + 1);
                    }
                    r
                } else {
                    let r = root.insert_non_full(k, Ghost(h), Ghost(1));
                    self.root = Some(root);
                    proof {
                        self.lemma_height(h);
                    }
                    r
                }
            },
            None => {
                let mut new_node = Box::new(Node::new());
                new_node.keys.push(k);
                proof {
                    assert(new_node.keys@ =~= seq![k]);
                    assert forall|x: i32| new_node.count(0, x) == one_if(x, k) by {
                        lemma_times_one(k, x);
                    }
                    assert(new_node.wf(0, 1));
                }
                self.root = Some(new_node);
                proof {
                    self.lemma_height(0);
                }
                false
            },
        }
    }

    /// Takes `k` out of the tree, once, if it is there. Returns whether it
    /// was.
    pub fn remove(&mut self, k: &i32) -> (r: bool)
        requires
            old(self).wf(),
        ensures
            final(self).wf(),
            r == (old(self).count(*k) > 0),
            forall|x: i32|
                final(self).count(x) + (if r {
                    one_if(x, *k)
                } else {
                    0
                }) == old(self).count(x),
    {
        let ghost h = self.height();
        match self.root.take() {
            Some(mut root) => {
                let r = root.remove(k, Ghost(h), Ghost(1));
                if root.keys.len() == 0 {
                    if root.is_leaf() {
                        proof {
                            assert forall|x: i32| root.count(h, x) == 0 by {
                                lemma_times_one(0, x);
                                assert(root.keys@ =~= Seq::<i32>::empty());
                            }
                        }
                        self.root = None;
                    } else {
                        let ghost head = *root;
                        let child = root.children.remove(0);
                        proof {
                            let g = (h - 1) as nat;
                            assert(head.children@[0].wf(g, (T - 1) as nat));
                            lemma_wf_weaken(*child, g, (T - 1) as nat, 1);
                            assert forall|x: i32| head.count(h, x) == child.count(g, x) by {
                                lemma_times_one(0, x);
                                assert(head.keys@ =~= Seq::<i32>::empty());
                                assert(head.children@ =~= seq![child]);
                                lemma_count_below_one(child, g, x);
                            }
                        }
                        self.root = Some(child);
                        proof {
                            self.lemma_height((h - 1) as nat);
                        }
                    }
                } else {
                    proof {
                        lemma_wf_weaken(*root, h, 0, 1);
                    }
                    self.root = Some(root);
                    proof {
                        self.lemma_height(h);
                    }
                }
                r
            },
            None => false,
        }
    }
}

} // verus!
