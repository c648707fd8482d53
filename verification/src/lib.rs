//! A growable sequence stored in chunks of a fixed capacity.
//!
//! [`Chunk`] is a buffer with room for exactly `N` elements. [`ChunkVec`]
//! lines chunks up behind one length: a push fills the last chunk and opens
//! a new one when that is full, so growing never moves an element that is
//! already stored. The [`segments`] module describes the resulting layout.

mod chunk;
pub mod segments;

pub use chunk::slice_views;
pub use chunk::Chunk;

use chunk::{cast_slice, cast_slice_mut};
use segments::{
    appended, carrying, lemma_appended, lemma_insert_end, lemma_insert_start, lemma_insert_step,
    lemma_packed_is_split, lemma_packed_shape, lemma_same_shape, lemma_split, packed,
    segments_needed, split,
};
use vstd::pervasive::unreached;
use vstd::prelude::*;

verus! {

/// A sequence stored in chunks of capacity `N`.
///
/// Its view is the sequence of its elements. `segments` gives the same
/// elements chunk by chunk.
pub struct ChunkVec<T, const N: usize> {
    chunks: Vec<Chunk<T, N>>,
    cached_len: usize,
}

impl<T, const N: usize> View for ChunkVec<T, N> {
    type V = Seq<T>;

    open spec fn view(&self) -> Seq<T> {
        self.segments().flatten()
    }
}

impl<T, const N: usize> ChunkVec<T, N> {
    /// What each chunk holds, in the chunks' order.
    pub closed spec fn segments(&self) -> Seq<Seq<T>> {
        Seq::new(self.chunks@.len(), |i: int| self.chunks@[i]@)
    }

    /// The length that the container keeps on record.
    pub closed spec fn recorded_len(&self) -> nat {
        self.cached_len as nat
    }

    /// The chunks are packed: all but the last are full and the last is not
    /// empty. The recorded length is the number of elements held.
    pub open spec fn well_formed(&self) -> bool {
        &&& packed(self.segments(), N as nat)
        &&& self.recorded_len() == self@.len()
    }

    /// The layout of a well-formed container follows from its contents: the
    /// chunks are the contents cut into runs of `N`, so `M` elements take
    /// `M / N` chunks, rounded up, every chunk but the last holds `N`
    /// elements, and the last holds what the others leave.
    pub proof fn lemma_layout(&self)
        requires
            self.well_formed(),
            N > 0,
        ensures
            self.segments() == split(self@, N as nat),
            self.segments().len() == segments_needed(self@.len(), N as nat),
            forall|i: int|
                0 <= i < self.segments().len() - 1 ==> (#[trigger] self.segments()[i]).len() == N,
            self.segments().len() > 0 ==> self.segments().last().len() == self@.len() - N * (
            self.segments().len() - 1),
    {
        lemma_packed_is_split(self.segments(), N as nat);
        lemma_packed_shape(self.segments(), N as nat);
    }

    /// Creates a container with no chunk and no element.
    pub fn new() -> (v: Self)
        ensures
            v.well_formed(),
            v.segments() == Seq::<Seq<T>>::empty(),
            v@ == Seq::<T>::empty(),
    {
        Self { chunks: Vec::new(), cached_len: 0 }
    }

    /// The elements as one slice per chunk, in order. Joined together the
    /// slices give every element in the order of insertion.
    pub fn as_slice_of_slices(&self) -> (slices: Vec<&[T]>)
        ensures
            slice_views(slices@) == self.segments(),
            slice_views(slices@).flatten() == self@,
    {
        let slices = cast_slice(self.chunks.as_slice());
        assert(slice_views(slices@) =~= self.segments());
        slices
    }

    /// The elements as one slice per chunk, in order, each open to change in
    /// place. Every chunk holds afterwards what its slice holds when the
    /// borrow ends; no slice can gain or lose elements, so the layout stays.
    pub fn as_slice_of_slices_mut(&mut self) -> (slices: Vec<&mut [T]>)
        requires
            old(self).well_formed(),
        ensures
            slices@.len() == old(self).segments().len(),
            forall|i: int|
                0 <= i < slices@.len() ==> slices@[i]@ == #[trigger] old(self).segments()[i],
            final(self).segments().len() == slices@.len(),
            forall|i: int|
                0 <= i < slices@.len() ==> {
                    &&& #[trigger] final(self).segments()[i] == final(slices@[i])@
                    &&& final(self).segments()[i].len() == old(self).segments()[i].len()
                },
            final(self).well_formed(),
            final(self)@.len() == old(self)@.len(),
    {
        proof {
            let before = self.segments();
            assert forall|after: Seq<Seq<T>>|
                after.len() == before.len() && (forall|i: int|
                    0 <= i < before.len() ==> (#[trigger] after[i]).len()
                        == before[i].len()) implies #[trigger] packed(after, N as nat)
                && after.flatten().len() == before.flatten().len() by {
                lemma_same_shape(before, after, N as nat);
            }
        }
        cast_slice_mut(self.chunks.as_mut_slice())
    }

    /// The number of elements, read from the record.
    pub fn len(&self) -> (len: usize)
        requires
            self.well_formed(),
        ensures
            len == self@.len(),
    {
        self.cached_len
    }

    /// Appends `item`: to the last chunk if that has room, else to a new
    /// chunk that is added behind it.
    pub fn push(&mut self, item: T)
        requires
            old(self).well_formed(),
            N > 0,
            old(self)@.len() < usize::MAX,
        ensures
            final(self).well_formed(),
            final(self).segments() == appended(old(self).segments(), N as nat, item),
            final(self)@ == old(self)@.push(item),
    {
        proof {
            lemma_appended(self.segments(), N as nat, item);
        }
        let item = if let Some(last) = self.chunks.last_mut() {
            match last.push(item) {
                Ok(_) => {
                    self.cached_len = self.cached_len + 1;
                    assert(self.segments() =~= appended(old(self).segments(), N as nat, item));
                    return ;
                },
                Err(item) => item,
            }
        } else {
            item
        };
        let mut chunk = Chunk::<T, N>::new();
        match chunk.push(item) {
            Ok(_) => {},
            Err(_) => unreached(),
        }
        self.chunks.push(chunk);
        self.cached_len = self.cached_len + 1;
        assert(self.segments() =~= appended(old(self).segments(), N as nat, item));
    }

    /// Inserts `item` at `index` of the whole sequence. Every element from
    /// `index` on moves one place towards the end: a full chunk hands its
    /// last element on to the front of the next chunk, and the last chunk
    /// grows by one, or a new chunk is opened behind it if it was full.
    pub fn insert(&mut self, index: usize, item: T)
        requires
            old(self).well_formed(),
            N > 0,
            index <= old(self)@.len(),
            old(self)@.len() < usize::MAX,
        ensures
            final(self).well_formed(),
            final(self)@ == old(self)@.insert(index as int, item),
            final(self).segments() == split(old(self)@.insert(index as int, item), N as nat),
    {
        if index > self.cached_len {
            // Only a caller that was not verified gets here: it is stopped
            // before anything is changed.
            unreached::<()>();
        }
        let ghost before = self.segments();
        let ghost want = split(self@.insert(index as int, item), N as nat);
        let count: usize = self.chunks.len();
        let mut k: usize = index / N;
        let mut at: usize = index % N;
        let mut carry = item;
        proof {
            lemma_insert_start(before, N as nat, index as int, item);
            lemma_split(self@.insert(index as int, item), N as nat);
            before.flatten().insert_ensures(index as int, item);
        }
        while k < count
            invariant
                before == old(self).segments(),
                want == split(before.flatten().insert(index as int, item), N as nat),
                packed(want, N as nat),
                want.flatten() == before.flatten().insert(index as int, item),
                want.flatten().len() == before.flatten().len() + 1,
                count == self.chunks@.len(),
                count == before.len(),
                self.cached_len == old(self).cached_len,
                self.cached_len == before.flatten().len(),
                self.cached_len < usize::MAX,
                carrying(before, N as nat, index as int, item, k as int, at as int, carry),
                k < want.len(),
                forall|i: int| 0 <= i < k ==> #[trigger] self.segments()[i] == want[i],
                forall|i: int| k <= i < count ==> #[trigger] self.segments()[i] == before[i],
            decreases count - k,
        {
            proof {
                lemma_insert_step(before, N as nat, index as int, item, k as int, at as int, carry);
                assert(self.segments()[k as int] == before[k as int]);
            }
            let ghost held = self.segments();
            let (_, evicted) = self.chunks[k].insert(at, carry);
            proof {
                assert(self.segments()[k as int] == want[k as int]);
                assert forall|i: int| 0 <= i < k + 1 implies #[trigger] self.segments()[i]
                    == want[i] by {
                    if i < k {
                        assert(self.segments()[i] == held[i]);
                    }
                }
                assert forall|i: int| k + 1 <= i < count implies #[trigger] self.segments()[i]
                    == before[i] by {
                    assert(self.segments()[i] == held[i]);
                }
            }
            match evicted {
                None => {
                    self.cached_len = self.cached_len + 1;
                    assert(self.segments() =~= want);
                    return ;
                },
                Some(last) => {
                    carry = last;
                },
            }
            at = 0;
            k = k + 1;
        }
        proof {
            lemma_insert_end(before, N as nat, index as int, item, at as int, carry);
        }
        let mut chunk = Chunk::<T, N>::new();
        match chunk.push(carry) {
            Ok(_) => {},
            Err(_) => unreached(),
        }
        let ghost held = self.segments();
        self.chunks.push(chunk);
        self.cached_len = self.cached_len + 1;
        proof {
            assert forall|i: int| 0 <= i < count implies #[trigger] self.segments()[i]
                == want[i] by {
                assert(self.segments()[i] == held[i]);
            }
            assert(self.segments() =~= want);
        }
    }
}

} // verus!
