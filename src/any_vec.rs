use vstd::prelude::*;

verus! {

/// Size and alignment, in bytes, of the elements that a buffer holds.
#[derive(Clone, Copy, Debug, PartialEq, Eq, Structural)]
pub struct Layout {
    pub size: usize,
    pub align: usize,
}

/// Capacity that a buffer of length `len` and capacity `cap` has after one
/// more element is pushed: unchanged while there is room, else 1 for an empty
/// buffer and twice the old capacity otherwise.
pub open spec fn capacity_after_push(len: nat, cap: nat) -> nat {
    if len < cap {
        cap
    } else if cap == 0 {
        1
    } else {
        2 * cap
    }
}

/// Whether `x` is a power of two.
pub open spec fn is_power_of_two(x: nat) -> bool
    decreases x,
{
    if x == 1 {
        true
    } else if x < 2 || x % 2 != 0 {
        false
    } else {
        is_power_of_two(x / 2)
    }
}

/// Capacity of a fresh buffer after `n` pushes and no pops.
pub open spec fn capacity_after_pushes(n: nat) -> nat
    decreases n,
{
    if n == 0 {
        0
    } else {
        capacity_after_push((n - 1) as nat, capacity_after_pushes((n - 1) as nat))
    }
}

/// Growth law: a fresh buffer has capacity 0, and after `n > 0` pushes with no
/// pops its capacity is the smallest power of two that is at least `n` (a
/// power of two `c` with `n <= c < 2 * n`; any smaller power of two is at most
/// `c / 2 < n`).
pub proof fn lemma_growth_law(n: nat)
    ensures
        n == 0 ==> capacity_after_pushes(n) == 0,
        n > 0 ==> is_power_of_two(capacity_after_pushes(n)),
        n > 0 ==> n <= capacity_after_pushes(n) < 2 * n,
    decreases n,
{
    if n > 1 {
        let m = (n - 1) as nat;
        lemma_growth_law(m);
        let c = capacity_after_pushes(m);
        if m == c {
            assert((2 * c) / 2 == c);
            assert((2 * c) % 2 == 0);
        }
    } else if n == 1 {
        assert(capacity_after_pushes(0) == 0);
    }
}

/// The elements that successive pops hand out, until the buffer is empty.
pub open spec fn pop_order<T>(s: Seq<T>) -> Seq<T>
    decreases s.len(),
{
    if s.len() == 0 {
        Seq::empty()
    } else {
        seq![s.last()] + pop_order(s.drop_last())
    }
}

/// LIFO: popping hands the elements out in reverse order of insertion, one
/// per element held.
pub proof fn lemma_pop_is_lifo<T>(s: Seq<T>)
    ensures
        pop_order(s).len() == s.len(),
        forall|i: int| 0 <= i < s.len() ==> pop_order(s)[i] == s[s.len() - 1 - i],
    decreases s.len(),
{
    if s.len() > 0 {
        lemma_pop_is_lifo(s.drop_last());
        assert forall|i: int| 0 <= i < s.len() implies pop_order(s)[i] == s[s.len() - 1 - i] by {
            if i > 0 {
                assert(pop_order(s)[i] == pop_order(s.drop_last())[i - 1]);
            }
        }
    }
}

/// A growable, contiguous buffer of values of one element type, with an
/// explicit capacity that starts at 0, becomes 1 on the first push and then
/// doubles whenever the buffer is full.
pub struct AnyVec<T> {
    items: Vec<T>,
    layout: Layout,
    cap: usize,
}

impl<T> View for AnyVec<T> {
    type V = Seq<T>;

    closed spec fn view(&self) -> Seq<T> {
        self.items@
    }
}

impl<T> AnyVec<T> {
    /// The number of elements the buffer has room for before it grows.
    pub closed spec fn spec_capacity(&self) -> nat {
        self.cap as nat
    }

    /// The element layout fixed at construction.
    pub closed spec fn spec_layout(&self) -> Layout {
        self.layout
    }

    /// The length never exceeds the capacity.
    pub open spec fn wf(&self) -> bool {
        self@.len() <= self.spec_capacity()
    }

    pub fn new() -> (r: Self)
        ensures
            r.wf(),
            r@ == Seq::<T>::empty(),
            r.spec_capacity() == 0,
            r.spec_capacity() == capacity_after_pushes(r@.len()),
            r.spec_layout() == (Layout {
                size: vstd::layout::size_of::<T>() as usize,
                align: vstd::layout::align_of::<T>() as usize,
            }),
    {
        let layout = Layout { size: core::mem::size_of::<T>(), align: core::mem::align_of::<T>() };
        AnyVec { items: Vec::new(), layout, cap: 0 }
    }

    fn grow(&mut self)
        requires
            old(self).wf(),
            old(self)@.len() == old(self).spec_capacity(),
            2 * old(self).spec_capacity() <= usize::MAX,
        ensures
            final(self).wf(),
            final(self)@ == old(self)@,
            final(self).spec_layout() == old(self).spec_layout(),
            final(self).spec_capacity() == capacity_after_push(old(self)@.len(), old(self).spec_capacity()),
    {
        let new_cap: usize = if self.cap == 0 {
            1
        } else {
            self.cap * 2
        };
        self.items.reserve(new_cap - self.items.len());
        self.cap = new_cap;
    }

    /// Appends one element, growing first when the buffer is full.
    pub fn push(&mut self, element: T)
        requires
            old(self).wf(),
            2 * old(self).spec_capacity() <= usize::MAX,
        ensures
            final(self).wf(),
            final(self)@ == old(self)@.push(element),
            final(self).spec_layout() == old(self).spec_layout(),
            final(self).spec_capacity() == capacity_after_push(old(self)@.len(), old(self).spec_capacity()),
            old(self).spec_capacity() == capacity_after_pushes(old(self)@.len())
                ==> final(self).spec_capacity() == capacity_after_pushes(final(self)@.len()),
    {
        if self.items.len() == self.cap {
            self.grow();
        }
        self.items.push(element);
    }

    /// Removes the last element and hands it back; `None` when empty.
    pub fn pop(&mut self) -> (r: Option<T>)
        requires
            old(self).wf(),
        ensures
            final(self).wf(),
            final(self).spec_layout() == old(self).spec_layout(),
            final(self).spec_capacity() == old(self).spec_capacity(),
            old(self)@.len() == 0 ==> r.is_none() && final(self)@ == old(self)@,
            old(self)@.len() > 0 ==> r == Some(old(self)@.last()) && final(self)@
                == old(self)@.drop_last(),
            old(self)@.len() > 0 ==> pop_order(old(self)@) == seq![r.unwrap()] + pop_order(
                final(self)@,
            ),
    {
        self.items.pop()
    }

    /// The element at `index`, or `None` when `index` is out of range.
    pub fn get(&self, index: usize) -> (r: Option<&T>)
        ensures
            index < self@.len() ==> r == Some(&self@[index as int]),
            index >= self@.len() ==> r.is_none(),
    {
        if index >= self.items.len() {
            return None;
        }
        Some(&self.items[index])
    }

    /// Mutable access to the element at `index`, or `None` when out of range.
    pub fn get_mut(&mut self, index: usize) -> (r: Option<&mut T>)
        requires
            old(self).wf(),
        ensures
            index < old(self)@.len() ==> r.is_some() && *r.unwrap() == old(self)@[index as int]
                && final(self)@ == old(self)@.update(index as int, *final(r.unwrap())),
            index >= old(self)@.len() ==> r.is_none() && *final(self) == *old(self),
            final(self).wf(),
            final(self).spec_layout() == old(self).spec_layout(),
            final(self).spec_capacity() == old(self).spec_capacity(),
    {
        if index >= self.items.len() {
            return None;
        }
        Some(&mut self.items[index])
    }

    pub fn len(&self) -> (r: usize)
        ensures
            r == self@.len(),
    {
        self.items.len()
    }

    /// The number of elements the buffer has room for before it grows.
    pub fn capacity(&self) -> (r: usize)
        ensures
            r == self.spec_capacity(),
    {
        self.cap
    }

    pub fn layout(&self) -> (r: Layout)
        ensures
            r == self.spec_layout(),
    {
        self.layout
    }

    /// The first element, or `None` when empty.
    pub fn first(&self) -> (r: Option<&T>)
        ensures
            self@.len() > 0 ==> r == Some(&self@[0]),
            self@.len() == 0 ==> r.is_none(),
    {
        if self.items.len() == 0 {
            return None;
        }
        self.get(0)
    }
}

} // verus!
