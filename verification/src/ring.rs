//! A queue of bounded length that drops its oldest item to make room for a
//! new one.

use vstd::arithmetic::div_mod::lemma_mod_equivalence;
use vstd::arithmetic::div_mod::lemma_small_mod;
use vstd::prelude::*;

verus! {

/// Two places less than `n` apart fall into different slots.
pub proof fn lemma_slots_differ(a: int, b: int, n: int)
    requires
        n > 0,
        0 <= a < b < a + n,
    ensures
        a % n != b % n,
{
    if a % n == b % n {
        lemma_mod_equivalence(b, a, n);
        lemma_small_mod((b - a) as nat, n as nat);
    }
}

/// The items held in the slots of `items` from place `head` up to place
/// `tail`.
pub open spec fn held<T>(items: Seq<Option<T>>, head: int, tail: int) -> Seq<T> {
    Seq::new((tail - head) as nat, |i: int| items[(head + i) % (items.len() as int)].unwrap())
}

/// Whether every slot from place `head` up to place `tail` is taken.
pub open spec fn taken<T>(items: Seq<Option<T>>, head: int, tail: int) -> bool {
    forall|j: int| head <= j < tail ==> (#[trigger] items[j % (items.len() as int)]) is Some
}

/// Writing the slot of a place that is held changes that item and no
/// other.
pub proof fn lemma_held_update<T>(items: Seq<Option<T>>, head: int, tail: int, at: int, x: T)
    requires
        0 <= head <= head + at < tail <= head + items.len(),
        0 <= at,
        taken(items, head, tail),
    ensures
        taken(items.update((head + at) % (items.len() as int), Some(x)), head, tail),
        held(items.update((head + at) % (items.len() as int), Some(x)), head, tail) == held(
            items,
            head,
            tail,
        ).update(at, x),
{
    let n = items.len() as int;
    let slot = (head + at) % n;
    let changed = items.update(slot, Some(x));
    assert forall|j: int| head <= j < tail implies (#[trigger] changed[j % n]) is Some by {
        assert(items[j % n] is Some);
    }
    assert forall|i: int| 0 <= i < tail - head implies held(changed, head, tail)[i] == held(
        items,
        head,
        tail,
    ).update(at, x)[i] by {
        if i < at {
            lemma_slots_differ(head + i, head + at, n);
        } else if at < i {
            lemma_slots_differ(head + at, head + i, n);
        }
    }
    assert(held(changed, head, tail) =~= held(items, head, tail).update(at, x));
}

/// A queue of at most `N` items.
pub struct Ring<T, const N: usize> {
    tail: usize,
    head: usize,
    items: Vec<Option<T>>,
}

impl<T, const N: usize> View for Ring<T, N> {
    type V = Seq<T>;

    closed spec fn view(&self) -> Seq<T> {
        held(self.items@, self.head as int, self.tail as int)
    }
}

/// A walk over the items of a [`Ring`], oldest first.
pub struct Iter<'a, T, const N: usize> {
    ring: &'a Ring<T, N>,
    i: usize,
}

impl<'a, T, const N: usize> Iter<'a, T, N> {
    /// The walk stays within the queue.
    pub closed spec fn wf(&self) -> bool {
        self.ring.wf() && self.ring.head <= self.i <= self.ring.tail
    }

    /// The items still to come.
    pub closed spec fn rest(&self) -> Seq<T> {
        self.ring@.subrange(self.i - self.ring.head, self.ring@.len() as int)
    }

    /// Hands out the next item, if there is one.
    pub fn next(&mut self) -> (r: Option<&'a T>)
        requires
            old(self).wf(),
        ensures
            final(self).wf(),
            match r {
                Some(x) => old(self).rest().len() > 0 && *x == old(self).rest()[0] && final(self).rest() == old(self).rest().drop_first(),
                None => old(self).rest().len() == 0 && final(self).rest() == old(self).rest(),
            },
    {
        if self.i < self.ring.tail {
            let ring: &'a Ring<T, N> = self.ring;
            assert(ring.items@[self.i as int % (N as int)] is Some);
            let v = ring.items[self.i % N].as_ref();
            self.i = self.i + 1;
            assert(self.rest() =~= old(self).rest().drop_first());
            v
        } else {
            None
        }
    }
}

impl<T, const N: usize> Ring<T, N> {
    /// There are `N` slots, and the slots of the places from the head up
    /// to the tail, at most `N` of them, are taken.
    pub closed spec fn wf(&self) -> bool {
        &&& self.items@.len() == N
        &&& self.head <= self.tail
        &&& self.tail - self.head <= N
        &&& taken(self.items@, self.head as int, self.tail as int)
    }

    /// How many items were ever put in.
    pub closed spec fn pushed(&self) -> nat {
        self.tail as nat
    }

    /// An empty queue.
    pub fn new() -> (r: Self)
        ensures
            r.wf(),
            r@ == Seq::<T>::empty(),
            r.pushed() == 0,
    {
        let mut items: Vec<Option<T>> = Vec::new();
        let mut i: usize = 0;
        while i < N
            invariant
                i <= N,
                items@.len() == i,
            decreases N - i,
        {
            items.push(None);
            i += 1;
        }
        let r = Ring { tail: 0, head: 0, items };
        assert(r@ =~= Seq::<T>::empty());
        r
    }

    /// The number of items.
    pub fn len(&self) -> (n: usize)
        requires
            self.wf(),
        ensures
            n == self@.len(),
            n <= N,
    {
        self.tail - self.head
    }

    /// Whether the queue holds as many items as it can.
    pub fn is_full(&self) -> (r: bool)
        requires
            self.wf(),
        ensures
            r == (self@.len() == N),
    {
        self.len() == N
    }

    /// Drops the oldest item. Returns whether there was one.
    pub fn drop_front(&mut self) -> (r: bool)
        requires
            old(self).wf(),
        ensures
            final(self).wf(),
            final(self).pushed() == old(self).pushed(),
            r == (old(self)@.len() > 0),
            r ==> final(self)@ == old(self)@.drop_first(),
            !r ==> final(self)@ == old(self)@,
    {
        if self.head < self.tail {
            self.items[self.head % N] = None;
            self.head = self.head + 1;
            proof {
                let n = N as int;
                assert forall|j: int| self.head <= j < self.tail implies (#[trigger] self.items@[j
                    % n]) is Some by {
                    lemma_slots_differ(old(self).head as int, j, n);
                    assert(old(self).items@[j % n] is Some);
                }
                assert forall|i: int| 0 <= i < self@.len() implies self@[i] == old(self)@.drop_first()[i] by {
                    lemma_slots_differ(old(self).head as int, self.head + i, n);
                }
                assert(self@ =~= old(self)@.drop_first());
            }
            true
        } else {
            assert(self@ =~= old(self)@);
            false
        }
    }

    /// Puts `v` in as the newest item, dropping the oldest one when the
    /// queue is full. A queue that can hold nothing drops `v`.
    pub fn push_back(&mut self, v: T)
        requires
            old(self).wf(),
            old(self).pushed() < usize::MAX,
        ensures
            final(self).wf(),
            N == 0 ==> final(self)@ == old(self)@ && final(self).pushed() == old(self).pushed(),
            N > 0 ==> final(self).pushed() == old(self).pushed() + 1,
            N > 0 && old(self)@.len() < N ==> final(self)@ == old(self)@.push(v),
            N > 0 && old(self)@.len() == N ==> final(self)@ == old(self)@.drop_first().push(v),
    {
        if N == 0 {
            return ;
        }
        if self.is_full() {
            self.drop_front();
        }
        let ghost mid = *self;
        assert(self@.len() == self.tail - self.head);
        assert(self.tail - self.head < N);
        self.items[self.tail % N] = Some(v);
        self.tail = self.tail + 1;
        proof {
            let n = N as int;
            assert forall|j: int| self.head <= j < self.tail implies (#[trigger] self.items@[j
                % n]) is Some by {
                if j < mid.tail {
                    lemma_slots_differ(j, mid.tail as int, n);
                    assert(mid.items@[j % n] is Some);
                }
            }
            assert forall|i: int| 0 <= i < self@.len() implies self@[i] == mid@.push(v)[i] by {
                if i < mid@.len() {
                    lemma_slots_differ(mid.head + i, mid.tail as int, n);
                }
            }
            assert(self@ =~= mid@.push(v));
        }
    }

    /// Takes the oldest item out.
    pub fn pop_front(&mut self) -> (r: Option<T>)
        requires
            old(self).wf(),
        ensures
            final(self).wf(),
            final(self).pushed() == old(self).pushed(),
            match r {
                Some(x) => old(self)@.len() > 0 && x == old(self)@[0] && final(self)@ == old(self)@.drop_first(),
                None => old(self)@.len() == 0 && final(self)@ == old(self)@,
            },
    {
        if self.head < self.tail {
            assert(self.items@[self.head as int % (N as int)] is Some);
            let v = self.items[self.head % N].take();
            self.head = self.head + 1;
            proof {
                let n = N as int;
                assert forall|j: int| self.head <= j < self.tail implies (#[trigger] self.items@[j
                    % n]) is Some by {
                    lemma_slots_differ(old(self).head as int, j, n);
                    assert(old(self).items@[j % n] is Some);
                }
                assert forall|i: int| 0 <= i < self@.len() implies self@[i] == old(self)@.drop_first()[i] by {
                    lemma_slots_differ(old(self).head as int, self.head + i, n);
                }
                assert(self@ =~= old(self)@.drop_first());
            }
            v
        } else {
            assert(self@ =~= old(self)@);
            None
        }
    }

    /// The oldest item.
    pub fn front(&self) -> (r: Option<&T>)
        requires
            self.wf(),
        ensures
            match r {
                Some(x) => self@.len() > 0 && *x == self@[0],
                None => self@.len() == 0,
            },
    {
        if self.head < self.tail {
            assert(self.items@[self.head as int % (N as int)] is Some);
            self.items[self.head % N].as_ref()
        } else {
            None
        }
    }

    /// The item at place `at`, counted from the oldest.
    pub fn get(&self, at: usize) -> (r: Option<&T>)
        requires
            self.wf(),
        ensures
            match r {
                Some(x) => at < self@.len() && *x == self@[at as int],
                None => at >= self@.len(),
            },
    {
        if at < self.len() {
            assert(self.items@[(self.head + at) % (N as int)] is Some);
            self.items[(self.head + at) % N].as_ref()
        } else {
            None
        }
    }

    /// The oldest item, to be changed in place.
    pub fn front_mut(&mut self) -> (r: Option<&mut T>)
        requires
            old(self).wf(),
        ensures
            final(self).wf(),
            final(self).pushed() == old(self).pushed(),
            match r {
                Some(x) => old(self)@.len() > 0 && *x == old(self)@[0] && final(self)@ == old(
                    self,
                )@.update(0, *final(x)),
                None => old(self)@.len() == 0 && final(self)@ == old(self)@,
            },
    {
        self.get_mut(0)
    }

    /// The item at place `at`, counted from the oldest, to be changed in
    /// place.
    pub fn get_mut(&mut self, at: usize) -> (r: Option<&mut T>)
        requires
            old(self).wf(),
        ensures
            final(self).wf(),
            final(self).pushed() == old(self).pushed(),
            match r {
                Some(x) => at < old(self)@.len() && *x == old(self)@[at as int] && final(self)@
                    == old(self)@.update(at as int, *final(x)),
                None => at >= old(self)@.len() && final(self)@ == old(self)@,
            },
    {
        if at < self.len() {
            proof {
                assert(self.items@[(self.head + at) % (N as int)] is Some);
                assert forall|x: T|
                    taken(
                        #[trigger] self.items@.update((self.head + at) % (N as int), Some(x)),
                        self.head as int,
                        self.tail as int,
                    ) && held(
                        self.items@.update((self.head + at) % (N as int), Some(x)),
                        self.head as int,
                        self.tail as int,
                    ) == self@.update(at as int, x) by {
                    lemma_held_update(self.items@, self.head as int, self.tail as int, at as int, x);
                }
            }
            self.items[(self.head + at) % N].as_mut()
        } else {
            None
        }
    }

    /// A walk over the items, oldest first.
    pub fn iter(&self) -> (it: Iter<'_, T, N>)
        requires
            self.wf(),
        ensures
            it.wf(),
            it.rest() == self@,
    {
        let it = Iter { ring: self, i: self.head };
        assert(it.rest() =~= self@);
        it
    }
}

} // verus!
