use vstd::prelude::*;

verus! {

/// A growable array over a block of `capacity` slots, of which the first
/// `size` hold live values and the rest are vacant.
pub struct Vector<T> {
    slots: Vec<Option<T>>,
    size: usize,
}

impl<T> View for Vector<T> {
    type V = Seq<T>;

    /// The live values, in index order.
    closed spec fn view(&self) -> Seq<T> {
        Seq::new(self.size as nat, |i: int| self.slots@[i]->Some_0)
    }
}

/// Capacity after one growth step: the first gives one slot, each later one
/// doubles.
pub open spec fn grown_capacity(cap: nat) -> nat {
    if cap == 0 {
        1
    } else {
        2 * cap
    }
}

/// Capacity after writing one more value into an array of `len` values over
/// `cap` slots: it grows only when every slot is taken.
pub open spec fn capacity_after_write(cap: nat, len: nat) -> nat {
    if len == cap {
        grown_capacity(cap)
    } else {
        cap
    }
}

/// Whether `c` is a power of two.
pub open spec fn is_power_of_two(c: nat) -> bool
    decreases c,
{
    if c <= 1 {
        c == 1
    } else {
        c % 2 == 0 && is_power_of_two(c / 2)
    }
}

/// The capacity of a new array after `k` pushes, each of which sets the
/// capacity as `push` states.
pub open spec fn capacity_after_pushes(k: nat) -> nat
    decreases k,
{
    if k == 0 {
        0
    } else {
        capacity_after_write(capacity_after_pushes((k - 1) as nat), (k - 1) as nat)
    }
}

/// Capacity grows by doubling: after `k >= 1` pushes onto a new array the
/// capacity is a power of two `c` with `k <= c < 2k`, which makes it the
/// smallest power of two that is at least `k`. Before the first push it is
/// zero.
pub proof fn lemma_capacity_after_pushes(k: nat)
    ensures
        k == 0 ==> capacity_after_pushes(k) == 0,
        k >= 1 ==> is_power_of_two(capacity_after_pushes(k)) && k <= capacity_after_pushes(k)
            < 2 * k,
    decreases k,
{
    if k == 1 {
        assert(capacity_after_pushes(0) == 0);
        assert(capacity_after_pushes(1) == 1);
        assert(is_power_of_two(1));
    } else if k > 1 {
        lemma_capacity_after_pushes((k - 1) as nat);
        let c = capacity_after_pushes((k - 1) as nat);
        assert(capacity_after_pushes(k) == capacity_after_write(c, (k - 1) as nat));
        if c == k - 1 {
            assert((2 * c) / 2 == c);
            assert((2 * c) % 2 == 0);
            assert(is_power_of_two(2 * c));
        }
    }
}

/// What a run of calls on a consuming iterator over `s` takes out: `true`
/// stands for `next`, `false` for `next_back`. The result holds the values
/// taken at the front in the order taken, those taken at the back in the
/// order taken, and what is left.
pub open spec fn take_from_ends<T>(s: Seq<T>, steps: Seq<bool>) -> (Seq<T>, Seq<T>, Seq<T>)
    decreases steps.len(),
{
    if steps.len() == 0 {
        (Seq::empty(), Seq::empty(), s)
    } else {
        let (front, back, rest) = take_from_ends(s, steps.drop_last());
        if rest.len() == 0 {
            (front, back, rest)
        } else if steps.last() {
            (front.push(rest.first()), back, rest.drop_first())
        } else {
            (front, back.push(rest.last()), rest.drop_last())
        }
    }
}

/// Consuming from both ends hands out each value exactly once: the values
/// taken at the front, then those left, then those taken at the back in
/// reverse order of taking, make up the sequence; once there have been as
/// many calls as values, nothing is left. Taking only from the front yields
/// the values in index order, taking only from the back in reverse order.
pub proof fn lemma_take_from_ends<T>(s: Seq<T>, steps: Seq<bool>)
    ensures
        ({
            let (front, back, rest) = take_from_ends(s, steps);
            &&& front + rest + back.reverse() == s
            &&& steps.len() >= s.len() ==> rest.len() == 0
            &&& steps.len() <= s.len() ==> rest.len() == s.len() - steps.len()
            &&& (forall|i: int| 0 <= i < steps.len() ==> steps[i]) ==> back.len() == 0
            &&& (forall|i: int| 0 <= i < steps.len() ==> !steps[i]) ==> front.len() == 0
        }),
    decreases steps.len(),
{
    if steps.len() > 0 {
        let prev = steps.drop_last();
        lemma_take_from_ends(s, prev);
        let (front, back, rest) = take_from_ends(s, prev);
        assert forall|i: int| 0 <= i < prev.len() implies prev[i] == steps[i] by {}
        if rest.len() > 0 {
            if steps.last() {
                assert(front.push(rest.first()) + rest.drop_first() =~= front + rest);
            } else {
                assert(rest.drop_last() + back.push(rest.last()).reverse() =~= rest
                    + back.reverse());
                assert(front + rest.drop_last() + back.push(rest.last()).reverse() =~= front
                    + (rest.drop_last() + back.push(rest.last()).reverse()));
                assert(front + rest + back.reverse() =~= front + (rest + back.reverse()));
            }
        }
    } else {
        assert(Seq::<T>::empty() + s + Seq::<T>::empty().reverse() =~= s);
    }
}

impl<T> Vector<T> {
    /// Slots below `size` are occupied, slots from `size` on are vacant, and
    /// the number of slots is zero or a power of two.
    pub closed spec fn well_formed(&self) -> bool {
        &&& self.size <= self.slots@.len()
        &&& (self.slots@.len() == 0 || is_power_of_two(self.slots@.len() as nat))
        &&& forall|i: int| 0 <= i < self.slots@.len() ==> (self.slots@[i] is Some <==> i < self.size)
    }

    /// The number of allocated slots.
    pub closed spec fn spec_capacity(&self) -> nat {
        self.slots@.len()
    }

    /// An empty array: no slots, no values.
    pub fn new() -> (v: Self)
        ensures
            v.well_formed(),
            v@ == Seq::<T>::empty(),
            v.spec_capacity() == 0,
    {
        Vector { slots: Vec::new(), size: 0 }
    }

    /// An array never holds more values than it has slots, and its capacity
    /// is zero or a power of two.
    pub proof fn lemma_len_le_capacity(&self)
        requires
            self.well_formed(),
        ensures
            self@.len() <= self.spec_capacity(),
            self.spec_capacity() == 0 || is_power_of_two(self.spec_capacity()),
    {
    }

    /// The single place where the block grows: it gains vacant slots up to
    /// the next capacity and keeps every existing slot as it was.
    fn grow(&mut self)
        requires
            old(self).well_formed(),
            grown_capacity(old(self).spec_capacity()) <= usize::MAX,
        ensures
            final(self).well_formed(),
            final(self)@ == old(self)@,
            final(self).spec_capacity() == grown_capacity(old(self).spec_capacity()),
    {
        let cap = self.slots.len();
        let new_cap: usize = if cap == 0 { 1 } else { 2 * cap };
        while self.slots.len() < new_cap
            invariant
                cap == old(self).slots@.len(),
                self.size == old(self).size,
                cap <= self.slots@.len() <= new_cap,
                forall|i: int| 0 <= i < cap ==> self.slots@[i] == old(self).slots@[i],
                forall|i: int| cap <= i < self.slots@.len() ==> self.slots@[i] is None,
            decreases new_cap - self.slots@.len(),
        {
            self.slots.push(None);
        }
        if cap > 0 {
            assert((2 * cap as nat) / 2 == cap as nat);
            assert((2 * cap as nat) % 2 == 0);
            assert(is_power_of_two(2 * cap as nat));
        } else {
            assert(is_power_of_two(1));
        }
        assert(self@ =~= old(self)@);
    }

    /// The number of live values.
    pub fn len(&self) -> (r: usize)
        requires
            self.well_formed(),
        ensures
            r == self@.len(),
    {
        self.size
    }

    /// The number of allocated slots.
    pub fn capacity(&self) -> (r: usize)
        ensures
            r == self.spec_capacity(),
            self.well_formed() ==> self@.len() <= r,
            self.well_formed() ==> r == 0 || is_power_of_two(r as nat),
    {
        self.slots.len()
    }

    /// Appends `elem` at the end, growing the block first when it is full.
    pub fn push(&mut self, elem: T)
        requires
            old(self).well_formed(),
            capacity_after_write(old(self).spec_capacity(), old(self)@.len()) <= usize::MAX,
        ensures
            final(self).well_formed(),
            final(self)@ == old(self)@.push(elem),
            final(self)@.len() <= final(self).spec_capacity(),
            final(self).spec_capacity() == capacity_after_write(
                old(self).spec_capacity(),
                old(self)@.len(),
            ),
    {
        if self.size == self.slots.len() {
            self.grow();
        }
        let n = self.size;
        self.slots.set(n, Some(elem));
        self.size = n + 1;
        assert(self@ =~= old(self)@.push(elem));
    }

    /// Removes and returns the last value, or `None` when there is none.
    /// The capacity is kept.
    pub fn pop(&mut self) -> (r: Option<T>)
        requires
            old(self).well_formed(),
        ensures
            final(self).well_formed(),
            final(self).spec_capacity() == old(self).spec_capacity(),
            old(self)@.len() == 0 ==> r is None && final(self)@ == old(self)@,
            old(self)@.len() > 0 ==> r == Some(old(self)@.last()) && final(self)@
                == old(self)@.drop_last(),
    {
        if self.size == 0 {
            None
        } else {
            let n = self.size - 1;
            let r = self.slots[n].take();
            self.size = n;
            assert(self@ =~= old(self)@.drop_last());
            r
        }
    }

    /// Puts `elem` at index `loc`, after moving the values from `loc` on one
    /// slot to the right; grows the block first when it is full.
    pub fn insert(&mut self, loc: usize, elem: T)
        requires
            old(self).well_formed(),
            loc <= old(self)@.len(),
            capacity_after_write(old(self).spec_capacity(), old(self)@.len()) <= usize::MAX,
        ensures
            final(self).well_formed(),
            final(self)@ == old(self)@.insert(loc as int, elem),
            final(self)@.len() <= final(self).spec_capacity(),
            final(self).spec_capacity() == capacity_after_write(
                old(self).spec_capacity(),
                old(self)@.len(),
            ),
    {
        if self.size == self.slots.len() {
            self.grow();
        }
        let ghost grown = self.slots@;
        let n = self.size;
        let mut j = n;
        while j > loc
            invariant
                self.size == n,
                n < grown.len(),
                forall|i: int| 0 <= i < grown.len() ==> (grown[i] is Some <==> i < n),
                loc <= j <= n,
                self.slots@.len() == grown.len(),
                self.slots@[j as int] is None,
                forall|i: int| 0 <= i < j ==> self.slots@[i] == grown[i],
                forall|i: int| j < i <= n ==> self.slots@[i] == grown[i - 1],
                forall|i: int| n < i < grown.len() ==> self.slots@[i] == grown[i],
            decreases j,
        {
            let moved = self.slots[j - 1].take();
            self.slots.set(j, moved);
            j = j - 1;
        }
        self.slots.set(loc, Some(elem));
        self.size = n + 1;
        assert forall|i: int| 0 <= i < self.slots@.len() implies (self.slots@[i] is Some <==> i
            < self.size) by {
            if loc < i <= n {
                assert(grown[i - 1] is Some);
            } else if i != loc {
                assert(grown[i] is Some <==> i < n);
            }
        }
        assert(self@ =~= old(self)@.insert(loc as int, elem));
    }

    /// Takes out the value at index `loc` and moves the values after it one
    /// slot to the left. The capacity is kept.
    pub fn remove(&mut self, loc: usize) -> (r: T)
        requires
            old(self).well_formed(),
            loc < old(self)@.len(),
        ensures
            final(self).well_formed(),
            r == old(self)@[loc as int],
            final(self)@ == old(self)@.remove(loc as int),
            final(self).spec_capacity() == old(self).spec_capacity(),
    {
        let ghost start = self.slots@;
        let n = self.size;
        let taken = self.slots[loc].take();
        let mut j = loc;
        while j + 1 < n
            invariant
                self.size == n,
                n <= start.len(),
                forall|i: int| 0 <= i < start.len() ==> (start[i] is Some <==> i < n),
                loc <= j < n,
                self.slots@.len() == start.len(),
                self.slots@[j as int] is None,
                forall|i: int| 0 <= i < loc ==> self.slots@[i] == start[i],
                forall|i: int| loc <= i < j ==> self.slots@[i] == start[i + 1],
                forall|i: int| j < i < start.len() ==> self.slots@[i] == start[i],
            decreases n - j,
        {
            let moved = self.slots[j + 1].take();
            self.slots.set(j, moved);
            j = j + 1;
        }
        self.size = n - 1;
        assert forall|i: int| 0 <= i < self.slots@.len() implies (self.slots@[i] is Some <==> i
            < self.size) by {
            if loc <= i < j {
                assert(start[i + 1] is Some);
            } else {
                assert(start[i] is Some <==> i < n);
            }
        }
        assert(self@ =~= old(self)@.remove(loc as int));
        taken.unwrap()
    }

    /// Borrows the value at index `i`.
    pub fn get(&self, i: usize) -> (r: &T)
        requires
            self.well_formed(),
            i < self@.len(),
        ensures
            *r == self@[i as int],
    {
        self.slots[i].as_ref().unwrap()
    }

    /// Borrows the value at index `i` for writing; whatever is written there
    /// becomes the value at `i`, and nothing else changes.
    pub fn get_mut(&mut self, i: usize) -> (r: &mut T)
        requires
            old(self).well_formed(),
            i < old(self)@.len(),
        ensures
            *r == old(self)@[i as int],
            final(self).well_formed(),
            final(self)@ == old(self)@.update(i as int, *final(r)),
            final(self).spec_capacity() == old(self).spec_capacity(),
    {
        self.slots[i].as_mut().unwrap()
    }

    /// Hands the live values over to a double-ended consuming iterator.
    pub fn into_iter(self) -> (r: IntoIter<T>)
        requires
            self.well_formed(),
        ensures
            r.well_formed(),
            r@ == self@,
            self.spec_capacity() == 0 ==> r@.len() == 0,
    {
        let end = self.size;
        let r = IntoIter { slots: self.slots, start: 0, end };
        assert(r@ =~= self@);
        r
    }
}

/// The values of a `Vector`, taken out one by one from either end.
pub struct IntoIter<T> {
    slots: Vec<Option<T>>,
    start: usize,
    end: usize,
}

impl<T> View for IntoIter<T> {
    type V = Seq<T>;

    /// The values not yet taken, front first.
    closed spec fn view(&self) -> Seq<T> {
        Seq::new((self.end - self.start) as nat, |i: int| self.slots@[self.start + i]->Some_0)
    }
}

impl<T> IntoIter<T> {
    /// Exactly the slots in `start..end` still hold a value.
    pub closed spec fn well_formed(&self) -> bool {
        &&& self.start <= self.end <= self.slots@.len()
        &&& forall|i: int|
            0 <= i < self.slots@.len() ==> (self.slots@[i] is Some <==> self.start <= i
                < self.end)
    }

    /// The number of values not yet taken.
    pub fn len(&self) -> (r: usize)
        requires
            self.well_formed(),
        ensures
            r == self@.len(),
    {
        self.end - self.start
    }

    /// Exact bounds on the number of values not yet taken.
    pub fn size_hint(&self) -> (r: (usize, Option<usize>))
        requires
            self.well_formed(),
        ensures
            r == (self@.len() as usize, Some(self@.len() as usize)),
    {
        let n = self.end - self.start;
        (n, Some(n))
    }

    /// Takes the front value, or returns `None` when none is left.
    pub fn next(&mut self) -> (r: Option<T>)
        requires
            old(self).well_formed(),
        ensures
            final(self).well_formed(),
            old(self)@.len() == 0 ==> r is None && final(self)@ == old(self)@,
            old(self)@.len() > 0 ==> r == Some(old(self)@.first()) && final(self)@
                == old(self)@.drop_first(),
    {
        if self.start == self.end {
            None
        } else {
            let i = self.start;
            let r = self.slots[i].take();
            self.start = i + 1;
            assert(self@ =~= old(self)@.drop_first());
            r
        }
    }

    /// Takes the back value, or returns `None` when none is left.
    pub fn next_back(&mut self) -> (r: Option<T>)
        requires
            old(self).well_formed(),
        ensures
            final(self).well_formed(),
            old(self)@.len() == 0 ==> r is None && final(self)@ == old(self)@,
            old(self)@.len() > 0 ==> r == Some(old(self)@.last()) && final(self)@
                == old(self)@.drop_last(),
    {
        if self.start == self.end {
            None
        } else {
            let i = self.end - 1;
            let r = self.slots[i].take();
            self.end = i;
            assert(self@ =~= old(self)@.drop_last());
            r
        }
    }
}

} // verus!
