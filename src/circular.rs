use vstd::arithmetic::div_mod::{lemma_mod_add_multiples_vanish, lemma_mod_twice, lemma_small_mod};
use vstd::prelude::*;

verus! {

/// The ring position after `k` in a ring of `n` positions.
pub open spec fn ring_succ(k: int, n: int) -> int {
    if k + 1 == n {
        0
    } else {
        k + 1
    }
}

/// The ring position before `k` in a ring of `n` positions.
pub open spec fn ring_pred(k: int, n: int) -> int {
    if k == 0 {
        n - 1
    } else {
        k - 1
    }
}

/// The position of the front cursor of a ring of `n` values after `j`
/// calls of `next`: it starts at the first node and each call moves it on
/// by `ring_succ`.
pub open spec fn front_after(n: int, j: nat) -> int
    decreases j,
{
    if j == 0 {
        0
    } else {
        ring_succ(front_after(n, (j - 1) as nat), n)
    }
}

/// Iterating from the first node wraps around the ring: the first `n`
/// calls of `next` visit positions `0, 1, ..., n - 1` in order, each once;
/// call `n + j` visits what call `j` did, so `n + k` calls visit the first
/// `k` positions again. In all, call `j` visits position `j % n`.
pub proof fn lemma_front_wraps(n: int, j: nat)
    requires
        n > 0,
    ensures
        j < n ==> front_after(n, j) == j,
        front_after(n, (n + j) as nat) == front_after(n, j),
        front_after(n, j) == j as int % n,
    decreases j,
{
    lemma_front_prefix(n, j);
    lemma_front_period(n, j);
    if j < n {
        lemma_small_mod(j, n as nat);
    } else {
        lemma_front_wraps(n, (j - n) as nat);
        lemma_front_period(n, (j - n) as nat);
        lemma_mod_add_multiples_vanish(j - n, n);
    }
}

/// Before the cursor has gone once around, it stands at the call count.
proof fn lemma_front_prefix(n: int, j: nat)
    requires
        n > 0,
    ensures
        j < n ==> front_after(n, j) == j,
        j == n ==> front_after(n, j) == 0,
    decreases j,
{
    if 0 < j <= n {
        lemma_front_prefix(n, (j - 1) as nat);
    }
}

/// The cursor comes back to where it was after `n` calls.
proof fn lemma_front_period(n: int, j: nat)
    requires
        n > 0,
    ensures
        front_after(n, (n + j) as nat) == front_after(n, j),
    decreases j,
{
    if j == 0 {
        lemma_front_prefix(n, n as nat);
    } else {
        lemma_front_period(n, (j - 1) as nat);
        assert(((n + j) - 1) as nat == (n + (j - 1)) as nat);
    }
}

/// Indexing wraps around the ring: `index(i)` reads position `i % n`, which
/// is `i` itself below `n` and what `index(i % n)` reads for every `i`.
pub proof fn lemma_index_wraps(n: int, i: int)
    requires
        n > 0,
        i >= 0,
    ensures
        i < n ==> i % n == i,
        (i % n) % n == i % n,
        (i + n) % n == i % n,
        0 <= i % n < n,
{
    if i < n {
        lemma_small_mod(i as nat, n as nat);
    }
    lemma_mod_twice(i, n);
    lemma_mod_add_multiples_vanish(i, n);
}

/// The links of one arena slot; they are read only while the slot is live.
#[derive(Clone, Copy)]
struct Link {
    next: usize,
    previous: usize,
}

/// A circular doubly-linked list. Its nodes live in an arena and link to
/// each other by slot index; vacant slots are kept on a free list for reuse.
pub struct Circular<T> {
    values: Vec<Option<T>>,
    links: Vec<Link>,
    free: Vec<usize>,
    first: Option<usize>,
    size: usize,
    /// The slot of the node at each position, position 0 being `first`.
    ring: Ghost<Seq<usize>>,
}

/// Each node of `ring` links forward to the node of the next position and
/// back to the node of the previous one, wrapping at both ends.
spec fn ring_linked(links: Seq<Link>, ring: Seq<usize>) -> bool {
    let n = ring.len() as int;
    forall|k: int|
        0 <= k < n ==> (#[trigger] links[ring[k] as int]).next == ring[ring_succ(k, n)]
            && links[ring[k] as int].previous == ring[ring_pred(k, n)]
}

/// Splicing `f` in before the node at position `p` (after the last node
/// when `p` is the length) links it in at position `p`.
proof fn lemma_splice(
    old_links: Seq<Link>,
    links: Seq<Link>,
    r: Seq<usize>,
    p: int,
    f: usize,
)
    requires
        r.len() > 0,
        0 <= p <= r.len(),
        ring_linked(old_links, r),
        forall|k: int| 0 <= k < r.len() ==> (r[k] as int) < old_links.len() && r[k] != f,
        forall|k: int, l: int| 0 <= k < r.len() && 0 <= l < r.len() && k != l ==> r[k] != r[l],
        old_links.len() <= links.len(),
        (f as int) < links.len(),
        ({
            let n = r.len() as int;
            let q = if p == n { 0 } else { p };
            let nx = r[q];
            let pv = r[ring_pred(q, n)];
            &&& links[f as int].next == nx
            &&& links[f as int].previous == pv
            &&& links[nx as int].previous == f
            &&& links[pv as int].next == f
            &&& forall|j: int|
                0 <= j < old_links.len() && j != nx && j != f ==> links[j].previous
                    == old_links[j].previous
            &&& forall|j: int|
                0 <= j < old_links.len() && j != pv && j != f ==> links[j].next
                    == old_links[j].next
        }),
    ensures
        ring_linked(links, r.insert(p, f)),
{
    let n = r.len() as int;
    let q = if p == n { 0 } else { p };
    let pq = ring_pred(q, n);
    let r2 = r.insert(p, f);
    assert forall|k: int| 0 <= k < n + 1 implies (#[trigger] links[r2[k] as int]).next
        == r2[ring_succ(k, n + 1)] && links[r2[k] as int].previous == r2[ring_pred(k, n + 1)] by {
        if k < p {
            assert(r2[k] == r[k]);
            assert(old_links[r[k] as int].next == r[ring_succ(k, n)]);
            assert(old_links[r[k] as int].previous == r[ring_pred(k, n)]);
            if k != pq {
                assert(r[k] != r[pq]);
            }
            if k != q {
                assert(r[k] != r[q]);
            }
        } else if k > p {
            let m = k - 1;
            assert(r2[k] == r[m]);
            assert(old_links[r[m] as int].next == r[ring_succ(m, n)]);
            assert(old_links[r[m] as int].previous == r[ring_pred(m, n)]);
            if m != pq {
                assert(r[m] != r[pq]);
            }
            if m != q {
                assert(r[m] != r[q]);
            }
        }
    }
}

/// Linking the neighbours of the node at position `p` to each other leaves
/// the other nodes linked in order without it.
proof fn lemma_unlink(old_links: Seq<Link>, links: Seq<Link>, r: Seq<usize>, p: int)
    requires
        r.len() > 1,
        0 <= p < r.len(),
        ring_linked(old_links, r),
        forall|k: int| 0 <= k < r.len() ==> (r[k] as int) < old_links.len(),
        forall|k: int, l: int| 0 <= k < r.len() && 0 <= l < r.len() && k != l ==> r[k] != r[l],
        old_links.len() == links.len(),
        ({
            let n = r.len() as int;
            let nx = r[ring_succ(p, n)];
            let pv = r[ring_pred(p, n)];
            &&& links[nx as int].previous == pv
            &&& links[pv as int].next == nx
            &&& forall|j: int|
                0 <= j < old_links.len() && j != nx ==> links[j].previous
                    == old_links[j].previous
            &&& forall|j: int|
                0 <= j < old_links.len() && j != pv ==> links[j].next == old_links[j].next
        }),
    ensures
        ring_linked(links, r.remove(p)),
{
    let n = r.len() as int;
    let sp = ring_succ(p, n);
    let pp = ring_pred(p, n);
    let r2 = r.remove(p);
    assert forall|k: int| 0 <= k < n - 1 implies (#[trigger] links[r2[k] as int]).next
        == r2[ring_succ(k, n - 1)] && links[r2[k] as int].previous == r2[ring_pred(k, n - 1)] by {
        let m = if k < p { k } else { k + 1 };
        assert(r2[k] == r[m]);
        assert(old_links[r[m] as int].next == r[ring_succ(m, n)]);
        assert(old_links[r[m] as int].previous == r[ring_pred(m, n)]);
        if m != pp {
            assert(r[m] != r[pp]);
        }
        if m != sp {
            assert(r[m] != r[sp]);
        }
    }
}

/// Every slot of `ring` holds a value, every slot of `free` holds none, and
/// together they cover the arena.
spec fn occupancy<T>(values: Seq<Option<T>>, ring: Seq<usize>, free: Seq<usize>) -> bool {
    &&& forall|k: int| 0 <= k < ring.len() ==> (ring[k] as int) < values.len()
    &&& forall|k: int| 0 <= k < ring.len() ==> (#[trigger] values[ring[k] as int]) is Some
    &&& free.no_duplicates()
    &&& forall|j: int|
        0 <= j < free.len() ==> (free[j] as int) < values.len() && (
        #[trigger] values[free[j] as int]) is None
    &&& free.len() + ring.len() == values.len()
}

/// Replacing the value in a live slot keeps the occupancy.
proof fn lemma_occupancy_replace<T>(
    values: Seq<Option<T>>,
    ring: Seq<usize>,
    free: Seq<usize>,
    c: int,
)
    requires
        occupancy(values, ring, free),
        0 <= c < values.len(),
        values[c] is Some,
    ensures
        forall|v: T| #[trigger] occupancy(values.update(c, Some(v)), ring, free),
{
    assert forall|v: T| #[trigger] occupancy(values.update(c, Some(v)), ring, free) by {
        let w = values.update(c, Some(v));
        assert forall|j: int| 0 <= j < free.len() implies (free[j] as int) < w.len() && (
        #[trigger] w[free[j] as int]) is None by {
            assert(values[free[j] as int] is None);
        }
        assert forall|k: int| 0 <= k < ring.len() implies (#[trigger] w[ring[k] as int]) is Some by {
            assert(values[ring[k] as int] is Some);
        }
    }
}

impl<T> View for Circular<T> {
    type V = Seq<T>;

    /// The values by position, starting at the first node.
    closed spec fn view(&self) -> Seq<T> {
        Seq::new(self.size as nat, |k: int| self.values@[self.ring@[k] as int]->Some_0)
    }
}

impl<T> Circular<T> {
    /// Following `next` from the first node visits the ring's slots in order
    /// and comes back after `size` steps; `previous` is its exact reverse.
    /// Live slots hold values, free slots hold none, and every slot is one of
    /// the two.
    pub closed spec fn well_formed(&self) -> bool {
        let n = self.size as int;
        let ring = self.ring@;
        let values = self.values@;
        &&& ring.len() == n
        &&& values.len() == self.links@.len()
        &&& (n == 0 <==> self.first is None)
        &&& n > 0 ==> self.first == Some(ring[0])
        &&& forall|k: int, l: int| 0 <= k < n && 0 <= l < n && k != l ==> ring[k] != ring[l]
        &&& ring_linked(self.links@, ring)
        &&& occupancy(values, ring, self.free@)
    }

    /// An empty ring: no nodes at all.
    pub fn new() -> (c: Self)
        ensures
            c.well_formed(),
            c@ == Seq::<T>::empty(),
    {
        Circular {
            values: Vec::new(),
            links: Vec::new(),
            free: Vec::new(),
            first: None,
            size: 0,
            ring: Ghost(Seq::empty()),
        }
    }

    /// The number of values in the ring.
    pub fn len(&self) -> (r: usize)
        requires
            self.well_formed(),
        ensures
            r == self@.len(),
    {
        self.size
    }

    /// The slot reached from the first node by `steps` moves along `next`.
    fn walk(&self, steps: usize) -> (r: usize)
        requires
            self.well_formed(),
            0 < self.size,
            steps <= self.size,
        ensures
            r == self.ring@[if steps == self.size { 0 } else { steps as int }],
            (r as int) < self.values@.len(),
    {
        let mut cur = self.first.unwrap();
        let mut i: usize = 0;
        while i < steps
            invariant
                self.well_formed(),
                0 < self.size,
                i <= steps <= self.size,
                cur == self.ring@[if i == self.size { 0 } else { i as int }],
            decreases steps - i,
        {
            cur = self.links[cur].next;
            i = i + 1;
        }
        cur
    }

    /// Prepends `val`: it becomes the value at position 0.
    pub fn prepend(&mut self, val: T)
        requires
            old(self).well_formed(),
            old(self)@.len() < usize::MAX,
        ensures
            final(self).well_formed(),
            final(self)@ == old(self)@.insert(0, val),
    {
        self.insert(0, val);
    }

    /// Stores `val` and `link` in a vacant slot: the last one freed if any,
    /// else a new one at the end of the arena. The ring is left as it was.
    fn alloc_slot(&mut self, val: T, link: Link) -> (slot: usize)
        requires
            old(self).well_formed(),
            old(self).size < usize::MAX,
        ensures
            final(self).ring == old(self).ring,
            final(self).first == old(self).first,
            final(self).size == old(self).size,
            final(self).values@.len() == final(self).links@.len(),
            (slot as int) < final(self).values@.len(),
            final(self).values@[slot as int] == Some(val),
            final(self).links@[slot as int] == link,
            old(self).values@.len() <= final(self).values@.len(),
            forall|j: int|
                0 <= j < old(self).values@.len() && j != slot ==> #[trigger] final(self).values@[j]
                    == old(self).values@[j],
            forall|j: int|
                0 <= j < old(self).values@.len() && j != slot ==> #[trigger] final(self).links@[j]
                    == old(self).links@[j],
            forall|k: int| 0 <= k < old(self).size ==> old(self).ring@[k] != slot,
            final(self).free@.no_duplicates(),
            forall|j: int|
                0 <= j < final(self).free@.len() ==> (final(self).free@[j] as int)
                    < final(self).values@.len() && (#[trigger] final(self).values@[final(
                    self).free@[j] as int]) is None,
            final(self).free@.len() + final(self).size + 1 == final(self).values@.len(),
    {
        let ghost old_values = self.values@;
        let ghost old_free = self.free@;
        let ghost r = self.ring@;
        let slot = match self.free.pop() {
            Some(f) => {
                assert(old_free[old_free.len() - 1] == f);
                assert(old_values[f as int] is None);
                self.values.set(f, Some(val));
                self.links.set(f, link);
                f
            },
            None => {
                let f = self.values.len();
                self.values.push(Some(val));
                self.links.push(link);
                f
            },
        };
        assert forall|k: int| 0 <= k < self.size implies r[k] != slot by {
            assert(old_values[r[k] as int] is Some);
        }
        assert forall|j: int| 0 <= j < self.free@.len() implies (self.free@[j] as int)
            < self.values@.len() && (#[trigger] self.values@[self.free@[j] as int]) is None by {
            assert(old_free[j] == self.free@[j]);
            assert(old_values[old_free[j] as int] is None);
            if slot < old_values.len() {
                assert(old_free[old_free.len() - 1] == slot);
            }
        }
        slot
    }

    /// Puts `val` at position `loc`: the new node is spliced in just before
    /// the node that held that position, or after the last one when `loc` is
    /// the length. A vacant slot is reused when there is one.
    pub fn insert(&mut self, loc: usize, val: T)
        requires
            old(self).well_formed(),
            loc <= old(self)@.len(),
            old(self)@.len() < usize::MAX,
        ensures
            final(self).well_formed(),
            final(self)@ == old(self)@.insert(loc as int, val),
    {
        let ghost r = self.ring@;
        let ghost n = self.size as int;
        let ghost old_links = self.links@;
        let (next_node, prev_node) = if self.size == 0 {
            (0, 0)
        } else {
            let next_node = self.walk(loc);
            (next_node, self.links[next_node].previous)
        };
        let ghost old_values = self.values@;
        let slot = self.alloc_slot(val, Link { next: next_node, previous: prev_node });
        let ghost mid_values = self.values@;
        if self.size == 0 {
            self.links.set(slot, Link { next: slot, previous: slot });
            self.first = Some(slot);
            proof {
                self.ring@ = seq![slot];
            }
        } else {
            let after = self.links[next_node];
            self.links.set(next_node, Link { next: after.next, previous: slot });
            let before = self.links[prev_node];
            self.links.set(prev_node, Link { next: slot, previous: before.previous });
            if loc == 0 {
                self.first = Some(slot);
            }
            proof {
                self.ring@ = r.insert(loc as int, slot);
                lemma_splice(old_links, self.links@, r, loc as int, slot);
            }
        }
        self.size = self.size + 1;
        proof {
            let r2 = self.ring@;
            let values = self.values@;
            let n2 = n + 1;
            assert(values == mid_values);
            assert forall|k: int| 0 <= k < n2 implies (#[trigger] values[r2[k] as int]) is Some by {
                if k < loc {
                    assert(r2[k] == r[k]);
                    assert(old_values[r[k] as int] is Some);
                } else if k > loc {
                    assert(r2[k] == r[k - 1]);
                    assert(old_values[r[k - 1] as int] is Some);
                }
            }
            assert forall|k: int| 0 <= k < n2 implies self@[k] == old(self)@.insert(
                loc as int,
                val,
            )[k] by {
                if k < loc {
                    assert(r2[k] == r[k]);
                    assert(r[k] != slot);
                    assert((r[k] as int) < old_values.len());
                } else if k > loc {
                    assert(r2[k] == r[k - 1]);
                    assert(r[k - 1] != slot);
                    assert((r[k - 1] as int) < old_values.len());
                }
            }
        }
        assert(self@ =~= old(self)@.insert(loc as int, val));
    }

    /// Takes out the value at position `loc`: its neighbours are linked to
    /// each other, the first node passes to the next one when position 0 is
    /// removed, and the slot goes on the free list.
    pub fn remove(&mut self, loc: usize) -> (r: T)
        requires
            old(self).well_formed(),
            loc < old(self)@.len(),
        ensures
            final(self).well_formed(),
            r == old(self)@[loc as int],
            final(self)@ == old(self)@.remove(loc as int),
    {
        let ghost r = self.ring@;
        let ghost n = self.size as int;
        let ghost old_links = self.links@;
        let ghost old_values = self.values@;
        let ghost old_free = self.free@;
        let cur = self.walk(loc);
        let link = self.links[cur];
        let after = self.links[link.next];
        self.links.set(link.next, Link { next: after.next, previous: link.previous });
        let before = self.links[link.previous];
        self.links.set(link.previous, Link { next: link.next, previous: before.previous });
        let value = self.values[cur].take();
        self.free.push(cur);
        self.size = self.size - 1;
        if self.size == 0 {
            self.first = None;
        } else if loc == 0 {
            self.first = Some(link.next);
        }
        proof {
            self.ring@ = r.remove(loc as int);
            if n > 1 {
                lemma_unlink(old_links, self.links@, r, loc as int);
            }
            let r2 = self.ring@;
            let values = self.values@;
            let n2 = n - 1;
            assert(values == old_values.update(cur as int, None));
            assert forall|k: int| 0 <= k < n2 implies (#[trigger] values[r2[k] as int]) is Some by {
                let m = if k < loc { k } else { k + 1 };
                assert(r2[k] == r[m]);
                assert(r[m] != r[loc as int]);
                assert(old_values[r[m] as int] is Some);
            }
            assert forall|j: int| 0 <= j < old_free.len() implies old_free[j] != cur by {
                assert(old_values[old_free[j] as int] is None);
            }
            assert(self.free@.no_duplicates());
            assert forall|j: int| 0 <= j < self.free@.len() implies (self.free@[j] as int)
                < values.len() && (#[trigger] values[self.free@[j] as int]) is None by {
                if j < old_free.len() {
                    assert(self.free@[j] == old_free[j]);
                    assert(old_values[old_free[j] as int] is None);
                }
            }
        }
        assert(self@ =~= old(self)@.remove(loc as int));
        value.unwrap()
    }

    /// Borrows the value at position `idx`.
    pub fn value_at(&self, idx: usize) -> (r: &T)
        requires
            self.well_formed(),
            idx < self@.len(),
        ensures
            *r == self@[idx as int],
    {
        let cur = self.walk(idx);
        self.values[cur].as_ref().unwrap()
    }

    /// Borrows the value at position `idx` for writing; whatever is written
    /// there becomes the value at `idx`.
    pub fn value_at_mut(&mut self, idx: usize) -> (r: &mut T)
        requires
            old(self).well_formed(),
            idx < old(self)@.len(),
        ensures
            *r == old(self)@[idx as int],
            final(self).well_formed(),
            final(self)@ == old(self)@.update(idx as int, *final(r)),
    {
        let cur = self.walk(idx);
        proof {
            lemma_occupancy_replace(self.values@, self.ring@, self.free@, cur as int);
        }
        self.values[cur].as_mut().unwrap()
    }

    /// Borrows the value at `index` counted around the ring, that is at
    /// position `index % len`.
    pub fn index(&self, index: usize) -> (r: &T)
        requires
            self.well_formed(),
            self@.len() > 0,
        ensures
            *r == self@[index as int % self@.len() as int],
    {
        self.value_at(index % self.size)
    }

    /// Borrows for writing the value at `index` counted around the ring,
    /// that is at position `index % len`.
    pub fn index_mut(&mut self, index: usize) -> (r: &mut T)
        requires
            old(self).well_formed(),
            old(self)@.len() > 0,
        ensures
            *r == old(self)@[index as int % old(self)@.len() as int],
            final(self).well_formed(),
            final(self)@ == old(self)@.update(index as int % old(self)@.len() as int, *final(r)),
    {
        let k = index % self.size;
        self.value_at_mut(k)
    }

    /// Two cursors over the ring: the front one starts at the first node and
    /// moves along `next`, the back one starts at the last node and moves
    /// along `previous`.
    pub fn iter_mut(&mut self) -> (r: IterMut<'_, T>)
        requires
            old(self).well_formed(),
        ensures
            r.well_formed(),
            r.values() == old(self)@,
            r.front() == 0,
            r.back() == ring_pred(0, old(self)@.len() as int),
            *final(r.borrowed()) == *final(self),
    {
        let (next, prev) = match self.first {
            Some(f) => (f, self.links[f].previous),
            None => (0, 0),
        };
        let ghost n = self.size as int;
        IterMut { list: self, next, prev, front: Ghost(0), back: Ghost(ring_pred(0, n)) }
    }
}

/// Two cursors over a borrowed ring. Neither runs out: past the length they
/// wrap around and reach values already handed out.
pub struct IterMut<'a, T> {
    list: &'a mut Circular<T>,
    next: usize,
    prev: usize,
    front: Ghost<int>,
    back: Ghost<int>,
}

impl<'a, T> IterMut<'a, T> {
    /// The borrowed ring.
    pub closed spec fn borrowed(&self) -> &'a mut Circular<T> {
        self.list
    }

    /// The ring's values by position, as they stand now.
    pub closed spec fn values(&self) -> Seq<T> {
        self.list@
    }

    /// The position the front cursor hands out next.
    pub closed spec fn front(&self) -> int {
        self.front@
    }

    /// The position the back cursor hands out next.
    pub closed spec fn back(&self) -> int {
        self.back@
    }

    /// Each cursor stands on the slot of its position.
    pub closed spec fn well_formed(&self) -> bool {
        let n = self.list.size as int;
        &&& self.list.well_formed()
        &&& n > 0 ==> 0 <= self.front@ < n && self.next == self.list.ring@[self.front@]
        &&& n > 0 ==> 0 <= self.back@ < n && self.prev == self.list.ring@[self.back@]
    }

    /// Once the cursors are done with, the ring keeps the values they left.
    pub proof fn lemma_release(self)
        requires
            has_resolved(self),
        ensures
            (*final(self.borrowed()))@ == self.values(),
    {
    }

    /// Hands out the value under the front cursor and moves that cursor one
    /// node on, from the last node back to the first; `None` on an empty
    /// ring.
    pub fn next(&mut self) -> (r: Option<&mut T>)
        requires
            old(self).well_formed(),
        ensures
            final(self).well_formed(),
            *final(final(self).borrowed()) == *final(old(self).borrowed()),
            final(self).back() == old(self).back(),
            old(self).values().len() == 0 ==> r is None && final(self).values() == old(
                self,
            ).values() && final(self).front() == old(self).front(),
            old(self).values().len() > 0 ==> {
                &&& r is Some
                &&& *r->0 == old(self).values()[old(self).front()]
                &&& final(self).values() == old(self).values().update(
                    old(self).front(),
                    *final(r->0),
                )
                &&& final(self).front() == ring_succ(
                    old(self).front(),
                    old(self).values().len() as int,
                )
            },
    {
        if self.list.size == 0 {
            return None;
        }
        let cur = self.next;
        let ghost p = self.front@;
        let ghost n = self.list.size as int;
        proof {
            lemma_occupancy_replace(self.list.values@, self.list.ring@, self.list.free@, cur as int);
        }
        self.next = self.list.links[cur].next;
        self.front = Ghost(ring_succ(p, n));
        Some(self.list.values[cur].as_mut().unwrap())
    }

    /// Hands out the value under the back cursor and moves that cursor one
    /// node back, from the first node on to the last; `None` on an empty
    /// ring.
    pub fn next_back(&mut self) -> (r: Option<&mut T>)
        requires
            old(self).well_formed(),
        ensures
            final(self).well_formed(),
            *final(final(self).borrowed()) == *final(old(self).borrowed()),
            final(self).front() == old(self).front(),
            old(self).values().len() == 0 ==> r is None && final(self).values() == old(
                self,
            ).values() && final(self).back() == old(self).back(),
            old(self).values().len() > 0 ==> {
                &&& r is Some
                &&& *r->0 == old(self).values()[old(self).back()]
                &&& final(self).values() == old(self).values().update(
                    old(self).back(),
                    *final(r->0),
                )
                &&& final(self).back() == ring_pred(
                    old(self).back(),
                    old(self).values().len() as int,
                )
            },
    {
        if self.list.size == 0 {
            return None;
        }
        let cur = self.prev;
        let ghost p = self.back@;
        let ghost n = self.list.size as int;
        proof {
            lemma_occupancy_replace(self.list.values@, self.list.ring@, self.list.free@, cur as int);
        }
        self.prev = self.list.links[cur].previous;
        self.back = Ghost(ring_pred(p, n));
        Some(self.list.values[cur].as_mut().unwrap())
    }
}

} // verus!
