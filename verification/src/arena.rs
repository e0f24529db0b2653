//! Append-only, non-shrinking storage handing out stable slice handles.
//!
//! An [`Arena`] is a sequence of chunks. Elements are only ever appended;
//! once written they are never moved or overwritten, so a [`SliceHandle`]
//! returned by [`Arena::extend_and_get`] keeps denoting the same elements
//! across any number of further appends.

use vstd::prelude::*;

verus! {

/// Capacity at which the open chunk is sealed and a fresh one is started.
pub const ALLOC_SIZE: usize = 1000000;

/// A stable reference to a contiguous run of elements inside an [`Arena`]:
/// the chunk it lives in, the offset of its first element, and its length.
#[derive(Clone, Copy, PartialEq, Eq, Structural, Debug)]
pub struct SliceHandle {
    pub chunk: usize,
    pub start: usize,
    pub len: usize,
}

/// Grow-only container of elements of type `T`, organised as a list of
/// sealed chunks plus one open chunk that receives new elements.
pub struct Arena<T> {
    full: Vec<Vec<T>>,
    current: Vec<T>,
    count: usize,
}

impl<T> View for Arena<T> {
    type V = Seq<T>;

    /// The insertion sequence: every element ever appended, oldest first.
    closed spec fn view(&self) -> Seq<T> {
        self.sealed().flatten() + self.current@
    }
}

impl<T> Arena<T> {
    /// The contents of the sealed chunks, oldest first.
    pub closed spec fn sealed(&self) -> Seq<Seq<T>> {
        self.full@.map_values(|v: Vec<T>| v@)
    }

    /// The contents of the open chunk.
    pub closed spec fn open_chunk(&self) -> Seq<T> {
        self.current@
    }

    /// All chunks, sealed ones first, the open chunk last.
    pub open spec fn chunks(&self) -> Seq<Seq<T>> {
        self.sealed().push(self.open_chunk())
    }

    /// The non-empty chunks, in insertion order: what `read_only_view` hands out.
    pub open spec fn visible_chunks(&self) -> Seq<Seq<T>> {
        if self.open_chunk().len() == 0 {
            self.sealed()
        } else {
            self.chunks()
        }
    }

    pub closed spec fn wf(&self) -> bool {
        &&& self.count == self@.len()
        &&& forall|i: int| 0 <= i < self.sealed().len() ==> #[trigger] self.sealed()[i].len() > 0
    }

    /// `h` denotes a run of elements that have already been written.
    pub open spec fn valid_handle(&self, h: SliceHandle) -> bool {
        &&& (h.chunk as int) < self.chunks().len()
        &&& h.start + h.len <= self.chunks()[h.chunk as int].len()
    }

    /// The elements `h` denotes.
    pub open spec fn resolve(&self, h: SliceHandle) -> Seq<T> {
        self.chunks()[h.chunk as int].subrange(h.start as int, h.start + h.len)
    }

    /// Every handle valid before the operation still resolves to the same elements.
    pub open spec fn preserves_handles(old_a: Self, new_a: Self) -> bool {
        forall|h: SliceHandle|
            old_a.valid_handle(h) ==> #[trigger] new_a.valid_handle(h) && new_a.resolve(h)
                == old_a.resolve(h)
    }

    pub fn new() -> (r: Self)
        ensures
            r.wf(),
            r@ == Seq::<T>::empty(),
            r.sealed() == Seq::<Seq<T>>::empty(),
    {
        let r = Self { full: Vec::new(), current: Vec::new(), count: 0 };
        proof {
            assert(r.sealed() =~= Seq::<Seq<T>>::empty());
            assert(r@ =~= Seq::<T>::empty());
        }
        r
    }

    /// Total number of elements ever appended.
    pub fn len(&self) -> (r: usize)
        requires
            self.wf(),
        ensures
            r == self@.len(),
    {
        self.count
    }

    /// Seal the open chunk. Only called when it is non-empty.
    fn seal(&mut self)
        requires
            old(self).wf(),
            old(self).open_chunk().len() > 0,
        ensures
            final(self).wf(),
            final(self)@ == old(self)@,
            final(self).open_chunk().len() == 0,
            final(self).sealed() == old(self).chunks(),
            Self::preserves_handles(*old(self), *final(self)),
    {
        let ghost prev = *self;
        let mut fresh: Vec<T> = Vec::new();
        core::mem::swap(&mut self.current, &mut fresh);
        self.full.push(fresh);
        proof {
            assert(self.sealed() =~= prev.sealed().push(prev.open_chunk()));
            prev.sealed().lemma_flatten_push(prev.open_chunk());
            assert(self@ =~= prev@);
            assert forall|h: SliceHandle| prev.valid_handle(h) implies self.valid_handle(h)
                && self.resolve(h) == prev.resolve(h) by {
                assert(self.chunks()[h.chunk as int] == prev.chunks()[h.chunk as int]);
            }
        }
    }

    /// Append one element, sealing the open chunk first if it is at capacity.
    pub fn push(&mut self, value: T)
        requires
            old(self).wf(),
            old(self)@.len() < usize::MAX,
        ensures
            final(self).wf(),
            final(self)@ == old(self)@.push(value),
            Self::preserves_handles(*old(self), *final(self)),
    {
        let ghost prev = *self;
        if self.current.len() >= ALLOC_SIZE {
            self.seal();
        }
        let ghost mid = *self;
        self.current.push(value);
        self.count = self.count + 1;
        proof {
            assert(self@ =~= mid@.push(value));
            assert forall|h: SliceHandle| mid.valid_handle(h) implies self.valid_handle(h)
                && self.resolve(h) == mid.resolve(h) by {
                if h.chunk as int == mid.chunks().len() - 1 {
                    assert(self.resolve(h) =~= mid.resolve(h));
                } else {
                    assert(self.chunks()[h.chunk as int] == mid.chunks()[h.chunk as int]);
                }
            }
        }
    }

    /// Append all of `data` as one contiguous run, sealing the open chunk
    /// first when the run would not fit into it. A run is never split
    /// across chunks.
    pub fn extend(&mut self, data: Vec<T>)
        requires
            old(self).wf(),
            old(self)@.len() + data@.len() <= usize::MAX,
        ensures
            final(self).wf(),
            final(self)@ == old(self)@ + data@,
            Self::preserves_handles(*old(self), *final(self)),
    {
        let _ = self.extend_and_get(data);
    }

    /// As `extend`, but also return a handle to the just-written run.
    pub fn extend_and_get(&mut self, data: Vec<T>) -> (h: SliceHandle)
        requires
            old(self).wf(),
            old(self)@.len() + data@.len() <= usize::MAX,
        ensures
            final(self).wf(),
            final(self)@ == old(self)@ + data@,
            Self::preserves_handles(*old(self), *final(self)),
            final(self).valid_handle(h),
            final(self).resolve(h) == data@,
            h.len == data@.len(),
    {
        let ghost prev = *self;
        let n = data.len();
        if self.current.len() + n > ALLOC_SIZE && self.current.len() > 0 {
            self.seal();
        }
        let ghost mid = *self;
        let chunk = self.full.len();
        let start = self.current.len();
        let mut data = data;
        let ghost data_seq = data@;
        self.current.append(&mut data);
        self.count = self.count + n;
        let h = SliceHandle { chunk, start, len: n };
        proof {
            assert(self@ =~= mid@ + data_seq);
            assert(self@ =~= prev@ + data_seq);
            assert(self.resolve(h) =~= data_seq);
            assert forall|h2: SliceHandle| mid.valid_handle(h2) implies self.valid_handle(h2)
                && self.resolve(h2) == mid.resolve(h2) by {
                if h2.chunk as int == mid.chunks().len() - 1 {
                    assert(self.resolve(h2) =~= mid.resolve(h2));
                } else {
                    assert(self.chunks()[h2.chunk as int] == mid.chunks()[h2.chunk as int]);
                }
            }
        }
        h
    }

    /// All non-empty chunks in insertion order, oldest first.
    pub fn read_only_view(&self) -> (r: Vec<&Vec<T>>)
        requires
            self.wf(),
        ensures
            r@.len() == self.visible_chunks().len(),
            forall|j: int| 0 <= j < r@.len() ==> #[trigger] r@[j]@ == self.visible_chunks()[j],
    {
        let mut r: Vec<&Vec<T>> = Vec::new();
        let mut i: usize = 0;
        while i < self.full.len()
            invariant
                0 <= i <= self.full@.len(),
                r@.len() == i,
                forall|j: int| 0 <= j < i ==> #[trigger] r@[j]@ == self.sealed()[j],
            decreases self.full@.len() - i,
        {
            r.push(&self.full[i]);
            i = i + 1;
        }
        if self.current.len() > 0 {
            r.push(&self.current);
        }
        r
    }

    /// The non-empty chunks concatenated are exactly the insertion sequence.
    pub proof fn lemma_view_is_concat(&self)
        requires
            self.wf(),
        ensures
            self.visible_chunks().flatten() == self@,
    {
        self.sealed().lemma_flatten_push(self.open_chunk());
        if self.open_chunk().len() == 0 {
            assert(self.visible_chunks().flatten() =~= self@);
        } else {
            assert(self.visible_chunks().flatten() =~= self@);
        }
    }
}

impl<T: Copy> Arena<T> {
    /// The elements a handle denotes, copied out.
    pub fn read_handle(&self, h: SliceHandle) -> (r: Vec<T>)
        requires
            self.wf(),
            self.valid_handle(h),
        ensures
            r@ == self.resolve(h),
    {
        let chunk: &Vec<T> = if h.chunk < self.full.len() {
            &self.full[h.chunk]
        } else {
            &self.current
        };
        proof {
            assert(chunk@ == self.chunks()[h.chunk as int]);
        }
        let clen = chunk.len();
        let mut r: Vec<T> = Vec::new();
        let mut i: usize = 0;
        while i < h.len
            invariant
                0 <= i <= h.len,
                h.start + h.len <= clen,
                clen == chunk@.len(),
                chunk@ == self.chunks()[h.chunk as int],
                r@ == chunk@.subrange(h.start as int, h.start + i),
            decreases h.len - i,
        {
            r.push(chunk[h.start + i]);
            proof {
                assert(chunk@.subrange(h.start as int, h.start + i).push(
                    chunk@[h.start + i],
                ) =~= chunk@.subrange(h.start as int, h.start + i + 1));
            }
            i = i + 1;
        }
        proof {
            assert(chunk@.subrange(h.start as int, h.start as int) =~= Seq::<T>::empty());
        }
        r
    }
}

} // verus!
