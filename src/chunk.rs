use vstd::prelude::*;

verus! {

/// A block of `CAP` slots. The live elements occupy the contiguous window
/// `[lo, hi)`; every slot outside it is empty. A chunk that grows at its back
/// starts with the window at slot 0, one that grows at its front starts with
/// the window at slot `CAP`, so both ends grow and shrink in constant time.
pub struct Chunk<T, const CAP: usize> {
    slots: Vec<Option<T>>,
    lo: usize,
    hi: usize,
    next: Option<usize>,
    prev: Option<usize>,
}

impl<T, const CAP: usize> View for Chunk<T, CAP> {
    type V = Seq<T>;

    /// The live elements, in order.
    closed spec fn view(&self) -> Seq<T> {
        Seq::new((self.hi - self.lo) as nat, |i: int| self.slots@[self.lo + i]->Some_0)
    }
}

impl<T, const CAP: usize> Chunk<T, CAP> {
    /// Slot count, live window inside it, and exactly the slots of the window hold a value.
    pub closed spec fn wf(&self) -> bool {
        &&& self.slots@.len() == CAP
        &&& self.lo <= self.hi <= CAP
        &&& forall|i: int| 0 <= i < CAP ==> (#[trigger] self.slots@[i] is Some <==> self.lo <= i < self.hi)
    }

    /// Index of the first live slot (free slots before the window).
    pub closed spec fn lo_spec(&self) -> nat {
        self.lo as nat
    }

    /// One past the index of the last live slot.
    pub closed spec fn hi_spec(&self) -> nat {
        self.hi as nat
    }

    /// Handle of the following chunk in a chain.
    pub closed spec fn next_spec(&self) -> Option<usize> {
        self.next
    }

    /// Handle of the preceding chunk in a chain.
    pub closed spec fn prev_spec(&self) -> Option<usize> {
        self.prev
    }

    /// The window lies inside the slots and holds exactly the live elements.
    pub proof fn lemma_window(&self)
        requires
            self.wf(),
        ensures
            self.lo_spec() <= self.hi_spec() <= CAP,
            self@.len() == self.hi_spec() - self.lo_spec(),
    {
    }

    fn empty_at(pos: usize) -> (r: Self)
        requires
            pos <= CAP,
        ensures
            r.wf(),
            r@ == Seq::<T>::empty(),
            r.lo_spec() == pos,
            r.hi_spec() == pos,
            r.next_spec() is None,
            r.prev_spec() is None,
    {
        let mut slots: Vec<Option<T>> = Vec::with_capacity(CAP);
        let mut k: usize = 0;
        while k < CAP
            invariant
                k <= CAP,
                slots@.len() == k,
                forall|i: int| 0 <= i < k ==> #[trigger] slots@[i] is None,
            decreases CAP - k,
        {
            slots.push(None);
            k = k + 1;
        }
        let r = Chunk { slots, lo: pos, hi: pos, next: None, prev: None };
        assert(r@ =~= Seq::<T>::empty());
        r
    }

    /// An empty, unlinked chunk that fills from its first slot onwards.
    pub fn new() -> (r: Self)
        ensures
            r.wf(),
            r@ == Seq::<T>::empty(),
            r.lo_spec() == 0,
            r.hi_spec() == 0,
            r.next_spec() is None,
            r.prev_spec() is None,
    {
        Self::empty_at(0)
    }

    /// An empty, unlinked chunk that fills from its last slot backwards.
    pub fn new_front() -> (r: Self)
        ensures
            r.wf(),
            r@ == Seq::<T>::empty(),
            r.lo_spec() == CAP,
            r.hi_spec() == CAP,
            r.next_spec() is None,
            r.prev_spec() is None,
    {
        Self::empty_at(CAP)
    }

    /// An empty chunk that will stand before the chunk `next` in a chain. It
    /// fills from its last slot backwards.
    pub fn with_next(next: usize) -> (r: Self)
        ensures
            r.wf(),
            r@ == Seq::<T>::empty(),
            r.lo_spec() == CAP,
            r.hi_spec() == CAP,
            r.next_spec() == Some(next),
            r.prev_spec() is None,
    {
        let mut r = Self::empty_at(CAP);
        r.next = Some(next);
        r
    }

    /// An empty chunk that will stand after the chunk `prev` in a chain. It
    /// fills from its first slot onwards.
    pub fn with_prev(prev: usize) -> (r: Self)
        ensures
            r.wf(),
            r@ == Seq::<T>::empty(),
            r.lo_spec() == 0,
            r.hi_spec() == 0,
            r.next_spec() is None,
            r.prev_spec() == Some(prev),
    {
        let mut r = Self::empty_at(0);
        r.prev = Some(prev);
        r
    }

    /// Number of live elements.
    pub fn len(&self) -> (r: usize)
        requires
            self.wf(),
        ensures
            r == self@.len(),
    {
        self.hi - self.lo
    }

    /// Whether no slot is free after the live window.
    pub fn is_full_back(&self) -> (r: bool)
        requires
            self.wf(),
        ensures
            r == (self.hi_spec() == CAP),
    {
        self.hi == CAP
    }

    /// Whether no slot is free before the live window.
    pub fn is_full_front(&self) -> (r: bool)
        requires
            self.wf(),
        ensures
            r == (self.lo_spec() == 0),
    {
        self.lo == 0
    }

    /// Handle of the following chunk, if any.
    pub fn next(&self) -> (r: Option<usize>)
        ensures
            r == self.next_spec(),
    {
        self.next
    }

    /// Handle of the preceding chunk, if any.
    pub fn prev(&self) -> (r: Option<usize>)
        ensures
            r == self.prev_spec(),
    {
        self.prev
    }

    /// Relinks the chunk to a new follower; contents are untouched.
    pub fn set_next(&mut self, next: Option<usize>)
        ensures
            final(self)@ == old(self)@,
            final(self).wf() == old(self).wf(),
            final(self).lo_spec() == old(self).lo_spec(),
            final(self).hi_spec() == old(self).hi_spec(),
            final(self).next_spec() == next,
            final(self).prev_spec() == old(self).prev_spec(),
    {
        self.next = next;
    }

    /// Relinks the chunk to a new predecessor; contents are untouched.
    pub fn set_prev(&mut self, prev: Option<usize>)
        ensures
            final(self)@ == old(self)@,
            final(self).wf() == old(self).wf(),
            final(self).lo_spec() == old(self).lo_spec(),
            final(self).hi_spec() == old(self).hi_spec(),
            final(self).next_spec() == old(self).next_spec(),
            final(self).prev_spec() == prev,
    {
        self.prev = prev;
    }

    /// The element at `index` of the live window, if there is one.
    pub fn get(&self, index: usize) -> (r: Option<&T>)
        requires
            self.wf(),
        ensures
            r == (if index < self@.len() { Some(&self@[index as int]) } else { None::<&T> }),
    {
        if index >= self.hi - self.lo {
            None
        } else {
            Some(self.index(index))
        }
    }

    /// The element at `index`; the index must be in range.
    pub fn index(&self, index: usize) -> (r: &T)
        requires
            self.wf(),
            index < self@.len(),
        ensures
            *r == self@[index as int],
    {
        let k = self.lo + index;
        assert(self.slots@[k as int] is Some);
        self.slots[k].as_ref().unwrap()
    }

    /// A mutable reference to the element at `index`, if there is one.
    pub fn get_mut(&mut self, index: usize) -> (r: Option<&mut T>)
        requires
            old(self).wf(),
        ensures
            index < old(self)@.len() ==> {
                &&& r is Some
                &&& *r->Some_0 == old(self)@[index as int]
                &&& final(self)@ == old(self)@.update(index as int, *final(r->Some_0))
            },
            index >= old(self)@.len() ==> r is None && final(self)@ == old(self)@,
            final(self).wf(),
            final(self).lo_spec() == old(self).lo_spec(),
            final(self).hi_spec() == old(self).hi_spec(),
            final(self).next_spec() == old(self).next_spec(),
            final(self).prev_spec() == old(self).prev_spec(),
    {
        if index >= self.hi - self.lo {
            None
        } else {
            Some(self.index_mut(index))
        }
    }

    /// A mutable reference to the element at `index`; the index must be in range.
    pub fn index_mut(&mut self, index: usize) -> (r: &mut T)
        requires
            old(self).wf(),
            index < old(self)@.len(),
        ensures
            *r == old(self)@[index as int],
            final(self)@ == old(self)@.update(index as int, *final(r)),
            final(self).wf(),
            final(self).lo_spec() == old(self).lo_spec(),
            final(self).hi_spec() == old(self).hi_spec(),
            final(self).next_spec() == old(self).next_spec(),
            final(self).prev_spec() == old(self).prev_spec(),
    {
        let k = self.lo + index;
        assert(self.slots@[k as int] is Some);
        let (_, rest) = self.slots.as_mut_slice().split_at_mut(k);
        let slot = rest.first_mut().unwrap();
        match slot {
            Some(x) => x,
            None => vstd::pervasive::unreached(),
        }
    }

    /// Appends `value` after the live window; a free slot must remain there.
    pub fn push(&mut self, value: T)
        requires
            old(self).wf(),
            old(self).hi_spec() < CAP,
        ensures
            final(self).wf(),
            final(self)@ == old(self)@.push(value),
            final(self).lo_spec() == old(self).lo_spec(),
            final(self).hi_spec() == old(self).hi_spec() + 1,
            final(self).next_spec() == old(self).next_spec(),
            final(self).prev_spec() == old(self).prev_spec(),
    {
        let k = self.hi;
        self.slots.set(k, Some(value));
        self.hi = k + 1;
        assert(self@ =~= old(self)@.push(value));
    }

    /// Places `value` before the live window; a free slot must remain there.
    pub fn push_front(&mut self, value: T)
        requires
            old(self).wf(),
            old(self).lo_spec() > 0,
        ensures
            final(self).wf(),
            final(self)@ == seq![value] + old(self)@,
            final(self).lo_spec() == old(self).lo_spec() - 1,
            final(self).hi_spec() == old(self).hi_spec(),
            final(self).next_spec() == old(self).next_spec(),
            final(self).prev_spec() == old(self).prev_spec(),
    {
        let k = self.lo - 1;
        self.slots.set(k, Some(value));
        self.lo = k;
        assert(self@ =~= seq![value] + old(self)@);
    }

    /// Removes and returns the last live element; the chunk must not be empty.
    /// Its slot is left empty, so the chunk holds no trace of the element.
    pub fn pop(&mut self) -> (r: T)
        requires
            old(self).wf(),
            old(self)@.len() > 0,
        ensures
            final(self).wf(),
            r == old(self)@.last(),
            final(self)@ == old(self)@.drop_last(),
            final(self).lo_spec() == old(self).lo_spec(),
            final(self).hi_spec() == old(self).hi_spec() - 1,
            final(self).next_spec() == old(self).next_spec(),
            final(self).prev_spec() == old(self).prev_spec(),
    {
        let k = self.hi - 1;
        let mut out: Option<T> = None;
        assert(self.slots@[k as int] is Some);
        self.slots.set_and_swap(k, &mut out);
        self.hi = k;
        assert(self@ =~= old(self)@.drop_last());
        out.unwrap()
    }

    /// Removes and returns the first live element; the chunk must not be empty.
    pub fn pop_front(&mut self) -> (r: T)
        requires
            old(self).wf(),
            old(self)@.len() > 0,
        ensures
            final(self).wf(),
            r == old(self)@[0],
            final(self)@ == old(self)@.drop_first(),
            final(self).lo_spec() == old(self).lo_spec() + 1,
            final(self).hi_spec() == old(self).hi_spec(),
            final(self).next_spec() == old(self).next_spec(),
            final(self).prev_spec() == old(self).prev_spec(),
    {
        let k = self.lo;
        let mut out: Option<T> = None;
        assert(self.slots@[k as int] is Some);
        self.slots.set_and_swap(k, &mut out);
        self.lo = k + 1;
        assert(self@ =~= old(self)@.drop_first());
        out.unwrap()
    }
}

} // verus!
