use vstd::prelude::*;

use crate::chunk::Chunk;

verus! {

/// The elements of the chunks named by `chain`, front chunk first.
pub closed spec fn chain_view<T, const CAP: usize>(
    arena: Seq<Option<Chunk<T, CAP>>>,
    chain: Seq<usize>,
) -> Seq<T>
    decreases chain.len(),
{
    if chain.len() == 0 {
        Seq::empty()
    } else {
        chain_view(arena, chain.drop_last()) + arena[chain.last() as int]->Some_0@
    }
}

/// A double-ended sequence stored in a chain of chunks of `CAP` slots each.
///
/// The chunks live in an arena and refer to their neighbours by arena index.
/// Every chunk of the chain holds at least one element; every chunk but the
/// front one is filled up to its last slot, and every chunk but the back one
/// is filled down to its first slot. Interior chunks are therefore full.
pub struct ChunkedList<T, const CAP: usize> {
    /// Chunk storage; a released chunk leaves its slot empty.
    arena: Vec<Option<Chunk<T, CAP>>>,
    /// Arena slots released earlier, tried first when a chunk is needed.
    free: Vec<usize>,
    front: Option<usize>,
    back: Option<usize>,
    /// Element count, kept up to date by every operation.
    len: usize,
    /// Arena slots of the chunks, front to back.
    chain: Ghost<Seq<usize>>,
}

impl<T, const CAP: usize> View for ChunkedList<T, CAP> {
    type V = Seq<T>;

    /// The elements, front to back.
    closed spec fn view(&self) -> Seq<T> {
        chain_view(self.arena@, self.chain@)
    }
}

impl<T, const CAP: usize> ChunkedList<T, CAP> {
    /// The `k`-th chunk of the chain, counted from the front.
    pub closed spec fn chunk_at(&self, k: int) -> Chunk<T, CAP> {
        self.arena@[self.chain@[k] as int]->Some_0
    }

    /// Number of chunks in the chain.
    pub closed spec fn chunk_count(&self) -> nat {
        self.chain@.len()
    }

    /// Number of elements in each chunk of the chain, front chunk first.
    pub closed spec fn chunk_sizes(&self) -> Seq<nat> {
        Seq::new(self.chain@.len(), |k: int| self.chunk_at(k)@.len())
    }

    pub closed spec fn links_ok(&self, k: int) -> bool {
        let n = self.chain@.len();
        let c = self.chunk_at(k);
        &&& self.chain@[k] < self.arena@.len()
        &&& self.arena@[self.chain@[k] as int] is Some
        &&& c.wf()
        &&& c@.len() > 0
        &&& c.prev_spec() == (if k == 0 { None } else { Some(self.chain@[k - 1]) })
        &&& c.next_spec() == (if k + 1 == n { None } else { Some(self.chain@[k + 1]) })
        &&& (k > 0 ==> c.lo_spec() == 0)
        &&& (k + 1 < n ==> c.hi_spec() == CAP)
    }

    /// The chain is a duplicate-free list of live arena slots, correctly
    /// linked both ways, with the fill discipline above; no other arena slot
    /// holds a chunk; the counter matches the contents.
    pub closed spec fn wf(&self) -> bool {
        let n = self.chain@.len();
        &&& CAP >= 1
        &&& forall|k: int| 0 <= k < n ==> #[trigger] self.links_ok(k)
        &&& forall|k: int, l: int|
            #![trigger self.chain@[k], self.chain@[l]]
            0 <= k < l < n ==> self.chain@[k] != self.chain@[l]
        &&& forall|j: int|
            0 <= j < self.arena@.len() && #[trigger] self.arena@[j] is Some ==> exists|k: int|
                0 <= k < n && self.chain@[k] == j
        &&& self.front == (if n == 0 { None } else { Some(self.chain@[0]) })
        &&& self.back == (if n == 0 { None } else { Some(self.chain@[n - 1]) })
        &&& self.len == self@.len()
    }

    proof fn lemma_view_frame(
        a1: Seq<Option<Chunk<T, CAP>>>,
        a2: Seq<Option<Chunk<T, CAP>>>,
        c: Seq<usize>,
    )
        requires
            forall|k: int| 0 <= k < c.len() ==> #[trigger] a1[c[k] as int]->Some_0@ == a2[c[k] as int]->Some_0@,
        ensures
            chain_view(a1, c) == chain_view(a2, c),
        decreases c.len(),
    {
        if c.len() > 0 {
            let d = c.drop_last();
            assert forall|k: int| 0 <= k < d.len() implies #[trigger] a1[d[k] as int]->Some_0@ == a2[d[k] as int]->Some_0@ by {
                assert(d[k] == c[k]);
            }
            Self::lemma_view_frame(a1, a2, d);
            assert(a1[c[c.len() - 1] as int]->Some_0@ == a2[c[c.len() - 1] as int]->Some_0@);
        }
    }

    /// The chunks before the last one of `c` kept their contents in `a2`
    /// when only the slot of the last chunk, or slots outside `c`, changed.
    proof fn lemma_frame_but_last(
        a1: Seq<Option<Chunk<T, CAP>>>,
        a2: Seq<Option<Chunk<T, CAP>>>,
        c: Seq<usize>,
        l: &Self,
    )
        requires
            l.wf(),
            l.arena@ == a1,
            l.chain@ == c,
            c.len() > 0,
            forall|j: int| 0 <= j < a1.len() && j != c.last() ==> #[trigger] a2[j]->Some_0@ == a1[j]->Some_0@,
            a2.len() >= a1.len(),
        ensures
            chain_view(a1, c.drop_last()) == chain_view(a2, c.drop_last()),
    {
        let d = c.drop_last();
        let n = c.len();
        assert forall|k: int| 0 <= k < d.len() implies #[trigger] a1[d[k] as int]->Some_0@
            == a2[d[k] as int]->Some_0@ by {
            assert(l.links_ok(k));
            assert(l.chain@[k] != l.chain@[n - 1]);
            assert(a2[d[k] as int]->Some_0@ == a1[d[k] as int]->Some_0@);
        }
        Self::lemma_view_frame(a1, a2, d);
    }

    /// The chunks after the first one of `c` kept their contents in `a2`
    /// when only the slot of the first chunk, or slots outside `c`, changed.
    proof fn lemma_frame_but_first(
        a1: Seq<Option<Chunk<T, CAP>>>,
        a2: Seq<Option<Chunk<T, CAP>>>,
        c: Seq<usize>,
        l: &Self,
    )
        requires
            l.wf(),
            l.arena@ == a1,
            l.chain@ == c,
            c.len() > 0,
            forall|j: int| 0 <= j < a1.len() && j != c[0] ==> #[trigger] a2[j]->Some_0@ == a1[j]->Some_0@,
        ensures
            chain_view(a1, c.drop_first()) == chain_view(a2, c.drop_first()),
            chain_view(a1, c) == a1[c[0] as int]->Some_0@ + chain_view(a1, c.drop_first()),
            chain_view(a2, c) == a2[c[0] as int]->Some_0@ + chain_view(a2, c.drop_first()),
    {
        let d = c.drop_first();
        assert forall|k: int| 0 <= k < d.len() implies #[trigger] a1[d[k] as int]->Some_0@
            == a2[d[k] as int]->Some_0@ by {
            assert(l.links_ok(k + 1));
            assert(l.chain@[0] != l.chain@[k + 1]);
            assert(d[k] == c[k + 1]);
        }
        Self::lemma_view_frame(a1, a2, d);
        assert(c =~= seq![c[0]] + d);
        Self::lemma_view_prepend(a1, c[0], d);
        Self::lemma_view_prepend(a2, c[0], d);
    }

    proof fn lemma_view_concat(a: Seq<Option<Chunk<T, CAP>>>, c1: Seq<usize>, c2: Seq<usize>)
        ensures
            chain_view(a, c1 + c2) == chain_view(a, c1) + chain_view(a, c2),
        decreases c2.len(),
    {
        if c2.len() == 0 {
            assert(c1 + c2 =~= c1);
            assert(chain_view(a, c1) + chain_view(a, c2) =~= chain_view(a, c1));
        } else {
            assert((c1 + c2).drop_last() =~= c1 + c2.drop_last());
            Self::lemma_view_concat(a, c1, c2.drop_last());
            assert(chain_view(a, c1 + c2) =~= chain_view(a, c1) + chain_view(a, c2));
        }
    }

    /// Replacing the chunk in slot `h`, position `k` of the chain, by one with
    /// the same window and links whose element `local` is `x`, keeps the list
    /// well formed and replaces element `index` of its contents by `x`.
    proof fn lemma_update_in_chunk(l1: &Self, l2: &Self, k: int, local: int, index: int, x: T)
        requires
            l1.wf(),
            0 <= k < l1.chain@.len(),
            0 <= local < l1.chunk_at(k)@.len(),
            chain_view(l1.arena@, l1.chain@.take(k)).len() + local == index,
            l2.front == l1.front,
            l2.back == l1.back,
            l2.len == l1.len,
            l2.chain@ == l1.chain@,
            l2.arena@ == l1.arena@.update(l1.chain@[k] as int, Some(l2.chunk_at(k))),
            l2.chunk_at(k).wf(),
            l2.chunk_at(k)@ == l1.chunk_at(k)@.update(local, x),
            l2.chunk_at(k).lo_spec() == l1.chunk_at(k).lo_spec(),
            l2.chunk_at(k).hi_spec() == l1.chunk_at(k).hi_spec(),
            l2.chunk_at(k).next_spec() == l1.chunk_at(k).next_spec(),
            l2.chunk_at(k).prev_spec() == l1.chunk_at(k).prev_spec(),
        ensures
            l2.wf(),
            l2@ == l1@.update(index, x),
    {
        let c = l1.chain@;
        let n = c.len();
        let h = c[k];
        let a1 = l1.arena@;
        let a2 = l2.arena@;
        assert(l1.links_ok(k));
        assert forall|i: int| 0 <= i < n implies #[trigger] l2.links_ok(i) by {
            assert(l1.links_ok(i));
            if i < k {
                assert(c[i] != c[k]);
            } else if i > k {
                assert(c[k] != c[i]);
            }
        }
        let pre = c.take(k);
        let post = c.skip(k + 1);
        assert(c =~= pre + (seq![h] + post));
        Self::lemma_view_concat(a1, pre, seq![h] + post);
        Self::lemma_view_concat(a2, pre, seq![h] + post);
        Self::lemma_view_prepend(a1, h, post);
        Self::lemma_view_prepend(a2, h, post);
        assert forall|i: int| 0 <= i < pre.len() implies #[trigger] a1[pre[i] as int]->Some_0@
            == a2[pre[i] as int]->Some_0@ by {
            assert(l1.links_ok(i));
            assert(c[i] != c[k]);
        }
        Self::lemma_view_frame(a1, a2, pre);
        assert forall|i: int| 0 <= i < post.len() implies #[trigger] a1[post[i] as int]->Some_0@
            == a2[post[i] as int]->Some_0@ by {
            assert(l1.links_ok(k + 1 + i));
            assert(c[k] != c[k + 1 + i]);
        }
        Self::lemma_view_frame(a1, a2, post);
        assert(l2@ =~= l1@.update(index, x));
        assert forall|j: int|
            0 <= j < a2.len() && #[trigger] a2[j] is Some implies exists|i: int|
                0 <= i < n && c[i] == j by {
            assert(a1[j] is Some);
        }
    }

    proof fn lemma_view_prepend(a: Seq<Option<Chunk<T, CAP>>>, h: usize, c: Seq<usize>)
        ensures
            chain_view(a, seq![h] + c) == a[h as int]->Some_0@ + chain_view(a, c),
        decreases c.len(),
    {
        if c.len() == 0 {
            let s = seq![h] + c;
            assert(s.drop_last() =~= Seq::<usize>::empty());
            assert(chain_view(a, s.drop_last()) == Seq::<T>::empty());
            assert(s.last() == h);
            assert(chain_view(a, seq![h] + c) =~= a[h as int]->Some_0@ + chain_view(a, c));
        } else {
            assert((seq![h] + c).drop_last() =~= seq![h] + c.drop_last());
            Self::lemma_view_prepend(a, h, c.drop_last());
            assert(chain_view(a, seq![h] + c) =~= a[h as int]->Some_0@ + chain_view(a, c));
        }
    }

    proof fn lemma_view_prefix(a: Seq<Option<Chunk<T, CAP>>>, c: Seq<usize>, m: int)
        requires
            0 <= m <= c.len(),
        ensures
            chain_view(a, c.take(m)).len() <= chain_view(a, c).len(),
            forall|i: int| 0 <= i < chain_view(a, c.take(m)).len() ==>
                chain_view(a, c)[i] == #[trigger] chain_view(a, c.take(m))[i],
        decreases c.len() - m,
    {
        if m == c.len() {
            assert(c.take(m) =~= c);
        } else {
            Self::lemma_view_prefix(a, c, m + 1);
            Self::lemma_view_step(a, c, m);
            let short = chain_view(a, c.take(m));
            let long = chain_view(a, c.take(m + 1));
            assert forall|i: int| 0 <= i < short.len() implies chain_view(a, c)[i]
                == #[trigger] short[i] by {
                assert(long[i] == short[i]);
            }
        }
    }

    proof fn lemma_view_step(a: Seq<Option<Chunk<T, CAP>>>, c: Seq<usize>, k: int)
        requires
            0 <= k < c.len(),
        ensures
            chain_view(a, c.take(k + 1)) == chain_view(a, c.take(k)) + a[c[k] as int]->Some_0@,
    {
        assert(c.take(k + 1).drop_last() =~= c.take(k));
    }

    fn take_chunk(&mut self, h: usize) -> (c: Chunk<T, CAP>)
        requires
            h < old(self).arena@.len(),
            old(self).arena@[h as int] is Some,
        ensures
            c == old(self).arena@[h as int]->Some_0,
            final(self).arena@ == old(self).arena@.update(h as int, None),
            final(self).front == old(self).front,
            final(self).back == old(self).back,
            final(self).len == old(self).len,
            final(self).chain == old(self).chain,
    {
        let mut slot: Option<Chunk<T, CAP>> = None;
        self.arena.set_and_swap(h, &mut slot);
        slot.unwrap()
    }

    fn put_chunk(&mut self, h: usize, c: Chunk<T, CAP>)
        requires
            h < old(self).arena@.len(),
        ensures
            final(self).arena@ == old(self).arena@.update(h as int, Some(c)),
            final(self).front == old(self).front,
            final(self).back == old(self).back,
            final(self).len == old(self).len,
            final(self).chain == old(self).chain,
    {
        self.arena.set(h, Some(c));
    }

    /// Stores `c` in an empty arena slot, reusing a released one when possible.
    fn allocate(&mut self, c: Chunk<T, CAP>) -> (h: usize)
        ensures
            h <= old(self).arena@.len(),
            h < old(self).arena@.len() ==> old(self).arena@[h as int] is None,
            final(self).arena@ == (if h == old(self).arena@.len() {
                old(self).arena@.push(Some(c))
            } else {
                old(self).arena@.update(h as int, Some(c))
            }),
            final(self).front == old(self).front,
            final(self).back == old(self).back,
            final(self).len == old(self).len,
            final(self).chain == old(self).chain,
    {
        if let Some(j) = self.free.pop() {
            if j < self.arena.len() && self.arena[j].is_none() {
                self.arena.set(j, Some(c));
                return j;
            }
        }
        let h = self.arena.len();
        self.arena.push(Some(c));
        h
    }

    /// Appends `value` at the back. A new chunk is linked in only when the
    /// back chunk has no free slot after its elements.
    pub fn push_back(&mut self, value: T)
        requires
            old(self).wf(),
            old(self)@.len() < usize::MAX,
        ensures
            final(self).wf(),
            final(self)@ == old(self)@.push(value),
            old(self)@.len() == 0 ==> final(self).chunk_sizes() == seq![1nat],
    {
        let ghost a0 = self.arena@;
        let ghost c0 = self.chain@;
        let ghost n = c0.len();
        proof {
            self.lemma_nonempty();
        }
        self.len = self.len + 1;
        match self.back {
            None => {
                let mut c = Chunk::new();
                c.push(value);
                let h = self.allocate(c);
                self.front = Some(h);
                self.back = Some(h);
                self.chain = Ghost(Seq::<usize>::empty().push(h));
                proof {
                    assert(n == 0);
                    assert forall|j: int| 0 <= j < a0.len() implies !(a0[j] is Some) by {
                        if a0[j] is Some {
                            let k = choose|k: int| 0 <= k < n && c0[k] == j;
                        }
                    }
                    assert(self.links_ok(0));
                    assert(self.chain@.drop_last() =~= Seq::<usize>::empty());
                    assert(chain_view(self.arena@, self.chain@.drop_last()) == Seq::<T>::empty());
                    assert(self@ =~= old(self)@.push(value));
                    assert(self.chunk_sizes() =~= seq![1nat]);
                    assert forall|j: int|
                        0 <= j < self.arena@.len() && #[trigger] self.arena@[j] is Some implies exists|k: int|
                            0 <= k < 1 && self.chain@[k] == j by {
                        assert(self.chain@[0] == j);
                    }
                }
            },
            Some(b) => {
                proof {
                    assert(old(self).links_ok(n - 1));
                }
                if self.arena[b].as_ref().unwrap().is_full_back() {
                    let mut fresh = Chunk::with_prev(b);
                    fresh.push(value);
                    let h = self.allocate(fresh);
                    let ghost a1 = self.arena@;
                    let mut c = self.take_chunk(b);
                    c.set_next(Some(h));
                    self.put_chunk(b, c);
                    self.back = Some(h);
                    self.chain = Ghost(c0.push(h));
                    proof {
                        assert forall|k: int| 0 <= k < n implies c0[k] != h by {
                            assert(self.links_ok(k)) by { assert(old(self).links_ok(k)); }
                        }
                        assert forall|k: int| 0 <= k < n + 1 implies #[trigger] self.links_ok(k) by {
                            assert(self.chain@[k] == (if k < n { c0[k] } else { h }));
                            if k < n {
                                assert(old(self).links_ok(k));
                                if k < n - 1 {
                                    assert(old(self).chain@[k] != old(self).chain@[n - 1]);
                                }
                            }
                        }
                        assert forall|k: int| 0 <= k < c0.len() implies #[trigger] a0[c0[k] as int]->Some_0@
                            == self.arena@[c0[k] as int]->Some_0@ by {
                            assert(old(self).links_ok(k));
                        }
                        Self::lemma_view_frame(a0, self.arena@, c0);
                        assert(self.chain@.drop_last() =~= c0);
                        assert(self@ =~= old(self)@.push(value));
                        assert forall|j: int|
                            0 <= j < self.arena@.len() && #[trigger] self.arena@[j] is Some implies exists|k: int|
                                0 <= k < n + 1 && self.chain@[k] == j by {
                            if j == h {
                                assert(self.chain@[n as int] == j);
                            } else {
                                assert(a0[j] is Some);
                                let k = choose|k: int| 0 <= k < n && c0[k] == j;
                                assert(self.chain@[k] == j);
                            }
                        }
                    }
                } else {
                    let mut c = self.take_chunk(b);
                    proof {
                        c.lemma_window();
                    }
                    c.push(value);
                    self.put_chunk(b, c);
                    proof {
                        assert forall|k: int| 0 <= k < n implies #[trigger] self.links_ok(k) by {
                            assert(old(self).links_ok(k));
                            if k < n - 1 {
                                assert(old(self).chain@[k] != old(self).chain@[n - 1]);
                            }
                        }
                        assert forall|k: int| 0 <= k < c0.drop_last().len() implies #[trigger] a0[c0.drop_last()[k] as int]->Some_0@
                            == self.arena@[c0.drop_last()[k] as int]->Some_0@ by {
                            assert(c0.drop_last()[k] == c0[k]);
                            assert(old(self).links_ok(k));
                            assert(old(self).chain@[k] != old(self).chain@[n - 1]);
                        }
                        Self::lemma_view_frame(a0, self.arena@, c0.drop_last());
                        assert(self@ =~= old(self)@.push(value));
                        assert forall|j: int|
                            0 <= j < self.arena@.len() && #[trigger] self.arena@[j] is Some implies exists|k: int|
                                0 <= k < n && self.chain@[k] == j by {
                            assert(a0[j] is Some);
                        }
                    }
                }
            },
        }
    }

    proof fn lemma_nonempty(&self)
        requires
            self.wf(),
        ensures
            self.chain@.len() > 0 ==> self@.len() > 0,
            self.chain@.len() == 0 ==> self@ == Seq::<T>::empty(),
    {
        let n = self.chain@.len();
        if n > 0 {
            assert(self.links_ok(n - 1));
        }
    }

    /// Removes and returns the back element; `None` when the list is empty.
    /// A back chunk left empty is unlinked and released.
    pub fn pop_back(&mut self) -> (r: Option<T>)
        requires
            old(self).wf(),
        ensures
            final(self).wf(),
            old(self)@.len() == 0 ==> r is None && final(self)@ == old(self)@,
            old(self)@.len() > 0 ==> r == Some(old(self)@.last()) && final(self)@ == old(self)@.drop_last(),
            final(self)@.len() == 0 ==> final(self).chunk_count() == 0,
    {
        let ghost a0 = self.arena@;
        let ghost c0 = self.chain@;
        let ghost n = c0.len();
        proof {
            self.lemma_nonempty();
        }
        let b = match self.back {
            None => {
                return None;
            },
            Some(b) => b,
        };
        proof {
            assert(self.links_ok(n - 1));
            assert(old(self)@ == chain_view(a0, c0.drop_last()) + a0[b as int]->Some_0@);
        }
        self.len = self.len - 1;
        let mut c = self.take_chunk(b);
        let v = c.pop();
        let p = c.prev();
        if c.len() > 0 {
            self.put_chunk(b, c);
            proof {
                assert forall|k: int| 0 <= k < n implies #[trigger] self.links_ok(k) by {
                    assert(old(self).links_ok(k));
                    if k < n - 1 {
                        assert(old(self).chain@[k] != old(self).chain@[n - 1]);
                    }
                }
                Self::lemma_frame_but_last(a0, self.arena@, c0, old(self));
                assert(self@ =~= old(self)@.drop_last());
                assert forall|j: int|
                    0 <= j < self.arena@.len() && #[trigger] self.arena@[j] is Some implies exists|k: int|
                        0 <= k < n && self.chain@[k] == j by {
                    assert(a0[j] is Some);
                }
            }
        } else if p.is_none() {
            self.free.push(b);
            self.front = None;
            self.back = None;
            self.chain = Ghost(Seq::<usize>::empty());
            proof {
                assert(n == 1);
                assert(c0.drop_last() =~= Seq::<usize>::empty());
                assert(old(self)@ =~= a0[b as int]->Some_0@);
                assert(self@ =~= old(self)@.drop_last());
                assert forall|j: int|
                    0 <= j < self.arena@.len() && #[trigger] self.arena@[j] is Some implies exists|k: int|
                        0 <= k < 0 && self.chain@[k] == j by {
                    let k = choose|k: int| 0 <= k < n && c0[k] == j;
                }
            }
        } else {
            let q = p.unwrap();
            self.free.push(b);
            proof {
                assert(old(self).links_ok(n - 2));
                assert(old(self).chain@[n - 2] != old(self).chain@[n - 1]);
            }
            let mut d = self.take_chunk(q);
            d.set_next(None);
            self.put_chunk(q, d);
            self.back = Some(q);
            self.chain = Ghost(c0.drop_last());
            proof {
                assert forall|k: int| 0 <= k < n - 1 implies #[trigger] self.links_ok(k) by {
                    assert(old(self).links_ok(k));
                    assert(old(self).chain@[k] != old(self).chain@[n - 1]);
                    if k < n - 2 {
                        assert(old(self).chain@[k] != old(self).chain@[n - 2]);
                    }
                }
                Self::lemma_frame_but_last(a0, self.arena@, c0, old(self));
                assert(self@ =~= old(self)@.drop_last());
                assert forall|j: int|
                    0 <= j < self.arena@.len() && #[trigger] self.arena@[j] is Some implies exists|k: int|
                        0 <= k < n - 1 && self.chain@[k] == j by {
                    assert(a0[j] is Some);
                    let k = choose|k: int| 0 <= k < n && c0[k] == j;
                    assert(self.chain@[k] == j);
                }
            }
        }
        proof {
            self.lemma_nonempty();
        }
        Some(v)
    }

    /// Places `value` at the front. A new chunk, filled from its last slot
    /// backwards, is linked in only when the front chunk has no free slot
    /// before its elements.
    pub fn push_front(&mut self, value: T)
        requires
            old(self).wf(),
            old(self)@.len() < usize::MAX,
        ensures
            final(self).wf(),
            final(self)@ == seq![value] + old(self)@,
            old(self)@.len() == 0 ==> final(self).chunk_sizes() == seq![1nat],
    {
        let ghost a0 = self.arena@;
        let ghost c0 = self.chain@;
        let ghost n = c0.len();
        proof {
            self.lemma_nonempty();
        }
        self.len = self.len + 1;
        let f = match self.front {
            None => {
                let mut c = Chunk::new_front();
                c.push_front(value);
                let h = self.allocate(c);
                self.front = Some(h);
                self.back = Some(h);
                self.chain = Ghost(Seq::<usize>::empty().push(h));
                proof {
                    assert(n == 0);
                    assert forall|j: int| 0 <= j < a0.len() implies !(a0[j] is Some) by {
                        if a0[j] is Some {
                            let k = choose|k: int| 0 <= k < n && c0[k] == j;
                        }
                    }
                    assert(self.links_ok(0));
                    assert(self.chain@.drop_last() =~= Seq::<usize>::empty());
                    assert(chain_view(self.arena@, self.chain@.drop_last()) == Seq::<T>::empty());
                    assert(old(self)@ == Seq::<T>::empty());
                    assert(self@ =~= seq![value] + old(self)@);
                    assert(self.chunk_sizes() =~= seq![1nat]);
                    assert forall|j: int|
                        0 <= j < self.arena@.len() && #[trigger] self.arena@[j] is Some implies exists|k: int|
                            0 <= k < 1 && self.chain@[k] == j by {
                        assert(self.chain@[0] == j);
                    }
                }
                return;
            },
            Some(f) => f,
        };
        proof {
            assert(old(self).links_ok(0));
        }
        if self.arena[f].as_ref().unwrap().is_full_front() {
            let mut fresh = Chunk::with_next(f);
            fresh.push_front(value);
            let h = self.allocate(fresh);
            let mut c = self.take_chunk(f);
            c.set_prev(Some(h));
            self.put_chunk(f, c);
            self.front = Some(h);
            self.chain = Ghost(seq![h] + c0);
            proof {
                assert forall|k: int| 0 <= k < n implies c0[k] != h by {
                    assert(old(self).links_ok(k));
                }
                assert forall|k: int| 0 <= k < n + 1 implies #[trigger] self.links_ok(k) by {
                    assert(self.chain@[k] == (if k == 0 { h } else { c0[k - 1] }));
                    if k > 0 {
                        assert(old(self).links_ok(k - 1));
                        if k > 1 {
                            assert(old(self).chain@[0] != old(self).chain@[k - 1]);
                        }
                    }
                }
                assert forall|k: int| 0 <= k < c0.len() implies #[trigger] a0[c0[k] as int]->Some_0@
                    == self.arena@[c0[k] as int]->Some_0@ by {
                    assert(old(self).links_ok(k));
                }
                Self::lemma_view_frame(a0, self.arena@, c0);
                Self::lemma_view_prepend(self.arena@, h, c0);
                assert(self@ =~= seq![value] + old(self)@);
                assert forall|j: int|
                    0 <= j < self.arena@.len() && #[trigger] self.arena@[j] is Some implies exists|k: int|
                        0 <= k < n + 1 && self.chain@[k] == j by {
                    if j == h {
                        assert(self.chain@[0] == j);
                    } else {
                        assert(a0[j] is Some);
                        let k = choose|k: int| 0 <= k < n && c0[k] == j;
                        assert(self.chain@[k + 1] == j);
                    }
                }
            }
        } else {
            let mut c = self.take_chunk(f);
            proof {
                c.lemma_window();
            }
            c.push_front(value);
            self.put_chunk(f, c);
            proof {
                assert forall|k: int| 0 <= k < n implies #[trigger] self.links_ok(k) by {
                    assert(old(self).links_ok(k));
                    if k > 0 {
                        assert(old(self).chain@[0] != old(self).chain@[k]);
                    }
                }
                Self::lemma_frame_but_first(a0, self.arena@, c0, old(self));
                assert(self@ =~= seq![value] + old(self)@);
                assert forall|j: int|
                    0 <= j < self.arena@.len() && #[trigger] self.arena@[j] is Some implies exists|k: int|
                        0 <= k < n && self.chain@[k] == j by {
                    assert(a0[j] is Some);
                }
            }
        }
    }

    /// Removes and returns the front element; `None` when the list is empty.
    /// A front chunk left empty is unlinked and released.
    pub fn pop_front(&mut self) -> (r: Option<T>)
        requires
            old(self).wf(),
        ensures
            final(self).wf(),
            old(self)@.len() == 0 ==> r is None && final(self)@ == old(self)@,
            old(self)@.len() > 0 ==> r == Some(old(self)@[0]) && final(self)@ == old(self)@.drop_first(),
            final(self)@.len() == 0 ==> final(self).chunk_count() == 0,
    {
        let ghost a0 = self.arena@;
        let ghost c0 = self.chain@;
        let ghost n = c0.len();
        proof {
            self.lemma_nonempty();
        }
        let f = match self.front {
            None => {
                return None;
            },
            Some(f) => f,
        };
        proof {
            assert(self.links_ok(0));
            Self::lemma_frame_but_first(a0, a0, c0, old(self));
        }
        self.len = self.len - 1;
        let mut c = self.take_chunk(f);
        let v = c.pop_front();
        let nx = c.next();
        if c.len() > 0 {
            self.put_chunk(f, c);
            proof {
                assert forall|k: int| 0 <= k < n implies #[trigger] self.links_ok(k) by {
                    assert(old(self).links_ok(k));
                    if k > 0 {
                        assert(old(self).chain@[0] != old(self).chain@[k]);
                    }
                }
                Self::lemma_frame_but_first(a0, self.arena@, c0, old(self));
                assert(self@ =~= old(self)@.drop_first());
                assert forall|j: int|
                    0 <= j < self.arena@.len() && #[trigger] self.arena@[j] is Some implies exists|k: int|
                        0 <= k < n && self.chain@[k] == j by {
                    assert(a0[j] is Some);
                }
            }
        } else if nx.is_none() {
            self.free.push(f);
            self.front = None;
            self.back = None;
            self.chain = Ghost(Seq::<usize>::empty());
            proof {
                assert(n == 1);
                assert(c0.drop_first() =~= Seq::<usize>::empty());
                assert(chain_view(a0, c0.drop_first()) == Seq::<T>::empty());
                assert(self@ =~= old(self)@.drop_first());
                assert forall|j: int|
                    0 <= j < self.arena@.len() && #[trigger] self.arena@[j] is Some implies exists|k: int|
                        0 <= k < 0 && self.chain@[k] == j by {
                    let k = choose|k: int| 0 <= k < n && c0[k] == j;
                }
            }
        } else {
            let q = nx.unwrap();
            self.free.push(f);
            proof {
                assert(old(self).links_ok(1));
                assert(old(self).chain@[0] != old(self).chain@[1]);
            }
            let mut d = self.take_chunk(q);
            d.set_prev(None);
            self.put_chunk(q, d);
            self.front = Some(q);
            self.chain = Ghost(c0.drop_first());
            proof {
                assert forall|k: int| 0 <= k < n - 1 implies #[trigger] self.links_ok(k) by {
                    assert(old(self).links_ok(k + 1));
                    assert(old(self).chain@[0] != old(self).chain@[k + 1]);
                    if k > 0 {
                        assert(old(self).chain@[1] != old(self).chain@[k + 1]);
                    }
                }
                Self::lemma_frame_but_first(a0, self.arena@, c0, old(self));
                assert(self@ =~= old(self)@.drop_first());
                assert forall|j: int|
                    0 <= j < self.arena@.len() && #[trigger] self.arena@[j] is Some implies exists|k: int|
                        0 <= k < n - 1 && self.chain@[k] == j by {
                    assert(a0[j] is Some);
                    let k = choose|k: int| 0 <= k < n && c0[k] == j;
                    assert(self.chain@[k - 1] == j);
                }
            }
        }
        proof {
            self.lemma_nonempty();
        }
        Some(v)
    }

    /// Where element `index` sits: the position `k` of its chunk in the chain,
    /// the arena slot of that chunk, and the position inside the chunk.
    fn locate(&self, index: usize) -> (r: (usize, usize))
        requires
            self.wf(),
            index < self@.len(),
        ensures
            exists|k: int|
                0 <= k < self.chain@.len() && self.chain@[k] == r.0 && r.1 < self.chunk_at(k)@.len()
                    && chain_view(self.arena@, self.chain@.take(k)).len() + r.1 == index,
            r.0 < self.arena@.len(),
            self.arena@[r.0 as int] is Some,
            self.arena@[r.0 as int]->Some_0.wf(),
            r.1 < self.arena@[r.0 as int]->Some_0@.len(),
            self@[index as int] == self.arena@[r.0 as int]->Some_0@[r.1 as int],
    {
        let ghost a = self.arena@;
        let ghost c = self.chain@;
        let ghost n = c.len();
        let mut cur = self.front;
        let mut offset: usize = 0;
        let ghost mut k: int = 0;
        proof {
            assert(c.take(0) =~= Seq::<usize>::empty());
        }
        loop
            invariant
                self.wf(),
                a == self.arena@,
                c == self.chain@,
                n == c.len(),
                0 <= k <= n,
                cur == (if k < n { Some(c[k]) } else { None::<usize> }),
                offset == chain_view(a, c.take(k)).len(),
                offset <= index < self@.len(),
            decreases n - k,
        {
            proof {
                if k == n {
                    assert(c.take(k) =~= c);
                }
            }
            let h = cur.unwrap();
            proof {
                assert(self.links_ok(k));
                Self::lemma_view_step(a, c, k);
                Self::lemma_view_prefix(a, c, k + 1);
            }
            let chunk = self.arena[h].as_ref().unwrap();
            let m = chunk.len();
            if index - offset < m {
                proof {
                    let pre = chain_view(a, c.take(k + 1));
                    assert(pre[index as int] == self@[index as int]);
                    assert(pre[index as int] == chunk@[index - offset]);
                }
                return (h, index - offset);
            }
            offset = offset + m;
            cur = chunk.next();
            proof {
                k = k + 1;
            }
        }
    }

    /// The element at position `index` from the front, if there is one.
    /// The chain is walked from the front chunk.
    pub fn get(&self, index: usize) -> (r: Option<&T>)
        requires
            self.wf(),
        ensures
            r == (if index < self@.len() { Some(&self@[index as int]) } else { None::<&T> }),
    {
        if index >= self.len {
            return None;
        }
        let (h, local) = self.locate(index);
        self.arena[h].as_ref().unwrap().get(local)
    }

    /// A mutable reference to the element at position `index` from the
    /// front, if there is one.
    pub fn get_mut(&mut self, index: usize) -> (r: Option<&mut T>)
        requires
            old(self).wf(),
        ensures
            final(self).wf(),
            index < old(self)@.len() ==> {
                &&& r is Some
                &&& *r->Some_0 == old(self)@[index as int]
                &&& final(self)@ == old(self)@.update(index as int, *final(r->Some_0))
            },
            index >= old(self)@.len() ==> r is None && final(self)@ == old(self)@,
    {
        if index >= self.len {
            return None;
        }
        let (h, local) = self.locate(index);
        let ghost k = choose|k: int|
            0 <= k < self.chain@.len() && self.chain@[k] == h && local < self.chunk_at(k)@.len()
                && chain_view(self.arena@, self.chain@.take(k)).len() + local == index;
        let (_, rest) = self.arena.as_mut_slice().split_at_mut(h);
        let slot = rest.first_mut().unwrap();
        let chunk = match slot {
            Some(c) => c,
            None => vstd::pervasive::unreached(),
        };
        let x = chunk.index_mut(local);
        proof {
            assert(after_borrow(*self).arena@ =~= old(self).arena@.update(h as int, Some(after_borrow(*self).arena@[h as int]->Some_0)));
            Self::lemma_update_in_chunk(old(self), &after_borrow(*self), k, local as int, index as int, *final(x));
        }
        Some(x)
    }

    /// Number of elements in each chunk of the chain, front chunk first.
    pub fn chunk_lengths(&self) -> (r: Vec<usize>)
        requires
            self.wf(),
        ensures
            r@.len() == self.chunk_sizes().len(),
            forall|k: int| 0 <= k < r@.len() ==> r@[k] == #[trigger] self.chunk_sizes()[k],
    {
        let ghost c = self.chain@;
        let ghost n = c.len();
        let mut out: Vec<usize> = Vec::new();
        let mut cur = self.front;
        while cur.is_some()
            invariant
                self.wf(),
                c == self.chain@,
                n == c.len(),
                out@.len() <= n,
                cur == (if out@.len() < n { Some(c[out@.len() as int]) } else { None::<usize> }),
                forall|k: int| 0 <= k < out@.len() ==> out@[k] == #[trigger] self.chunk_sizes()[k],
            decreases n - out@.len(),
        {
            let h = cur.unwrap();
            proof {
                assert(self.links_ok(out@.len() as int));
            }
            let chunk = self.arena[h].as_ref().unwrap();
            out.push(chunk.len());
            cur = chunk.next();
        }
        out
    }

    /// A list without elements has no chunk left: it is in the state of a
    /// newly made list.
    pub proof fn lemma_empty_is_fresh(l: &Self)
        requires
            l.wf(),
            l@.len() == 0,
        ensures
            l.chunk_count() == 0,
            l.chunk_sizes() == Seq::<nat>::empty(),
    {
        l.lemma_nonempty();
        assert(l.chunk_sizes() =~= Seq::<nat>::empty());
    }

    proof fn lemma_full_prefix(l: &Self, k: int)
        requires
            l.wf(),
            1 <= k <= l.chain@.len() - 1,
            forall|j: int| 0 < j < l.chain@.len() - 1 ==> #[trigger] l.chunk_sizes()[j] == CAP,
        ensures
            (k - 1) * CAP <= chain_view(l.arena@, l.chain@.take(k)).len(),
        decreases k,
    {
        if k > 1 {
            Self::lemma_full_prefix(l, k - 1);
            Self::lemma_view_step(l.arena@, l.chain@, k - 1);
            assert(l.chunk_sizes()[k - 1] == CAP);
            assert((k - 2) * CAP + CAP == (k - 1) * CAP) by (nonlinear_arith);
        } else {
            assert((k - 1) * CAP == 0) by (nonlinear_arith)
                requires
                    k == 1,
            ;
        }
    }

    /// Every chunk holds at least one element and at most `CAP`, every chunk
    /// strictly between the two end chunks is full, the sizes add up to the
    /// length, and so there are at most `len / CAP + 2` chunks.
    pub proof fn lemma_near_full(l: &Self)
        requires
            l.wf(),
        ensures
            forall|k: int| 0 <= k < l.chunk_count() ==> 1 <= #[trigger] l.chunk_sizes()[k] <= CAP,
            forall|k: int| 0 < k < l.chunk_count() - 1 ==> #[trigger] l.chunk_sizes()[k] == CAP,
            l.chunk_count() >= 2 ==> (l.chunk_count() - 2) * CAP <= l@.len(),
            l.chunk_count() <= (l@.len() as int) / (CAP as int) + 2,
    {
        let n = l.chain@.len();
        let a = l.arena@;
        let c = l.chain@;
        assert forall|k: int| 0 <= k < n implies 1 <= #[trigger] l.chunk_sizes()[k] <= CAP by {
            assert(l.links_ok(k));
            l.chunk_at(k).lemma_window();
        }
        assert forall|k: int| 0 < k < n - 1 implies #[trigger] l.chunk_sizes()[k] == CAP by {
            assert(l.links_ok(k));
            l.chunk_at(k).lemma_window();
        }
        if n >= 2 {
            Self::lemma_full_prefix(l, n - 1);
            Self::lemma_view_prefix(a, c, n - 1);
            assert((n - 2) * CAP <= l@.len());
            assert(n - 2 <= (l@.len() as int) / (CAP as int)) by (nonlinear_arith)
                requires
                    (n - 2) * CAP <= l@.len(),
                    CAP >= 1,
                    n >= 2,
            ;
        } else {
            assert(0 <= (l@.len() as int) / (CAP as int)) by (nonlinear_arith)
                requires
                    CAP >= 1,
            ;
        }
    }

    /// An empty list.
    pub fn new() -> (r: Self)
        requires
            CAP >= 1,
        ensures
            r.wf(),
            r@ == Seq::<T>::empty(),
            r.chunk_count() == 0,
    {
        let r = ChunkedList {
            arena: Vec::new(),
            free: Vec::new(),
            front: None,
            back: None,
            len: 0,
            chain: Ghost(Seq::empty()),
        };
        assert(r@ == Seq::<T>::empty());
        r
    }

    /// Number of elements.
    pub fn len(&self) -> (r: usize)
        requires
            self.wf(),
        ensures
            r == self@.len(),
    {
        self.len
    }

    /// Whether the list holds no element.
    pub fn is_empty(&self) -> (r: bool)
        requires
            self.wf(),
        ensures
            r == (self@.len() == 0),
    {
        self.len == 0
    }
}

} // verus!
