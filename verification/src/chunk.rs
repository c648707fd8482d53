//! A buffer that holds at most `N` elements and never grows past that.

use vstd::pervasive::unreached;
use vstd::prelude::*;

verus! {

/// A buffer with room for exactly `N` elements.
///
/// Its view is the sequence of elements it holds, oldest position first. The
/// number of elements held never exceeds `N`.
pub struct Chunk<T, const N: usize> {
    items: Vec<T>,
}

impl<T, const N: usize> View for Chunk<T, N> {
    type V = Seq<T>;

    closed spec fn view(&self) -> Seq<T> {
        self.items@
    }
}

/// `Vec::as_mut_slice`: the slice holds the vector's elements, what the
/// vector holds afterwards is what the slice holds when the borrow ends, and
/// a slice keeps its length for as long as it lives. The call cannot panic.
#[verifier::external_body]
fn vec_as_mut_slice<T>(v: &mut Vec<T>) -> (slice: &mut [T])
    ensures
        slice@ == old(v)@,
        final(v)@ == final(slice)@,
        final(slice)@.len() == slice@.len(),
    no_unwind
{
    v.as_mut_slice()
}

impl<T, const N: usize> Chunk<T, N> {
    #[verifier::type_invariant]
    spec fn within_capacity(self) -> bool {
        self.items@.len() <= N
    }

    /// Whether a chunk holding `held` has no room left.
    pub open spec fn full(held: Seq<T>) -> bool {
        held.len() == N
    }

    /// What a chunk holding `held` holds after `item` is pushed: `item` goes
    /// to the end while there is room, and a full chunk stays as it is.
    pub open spec fn pushed(held: Seq<T>, item: T) -> Seq<T> {
        if Self::full(held) {
            held
        } else {
            held.push(item)
        }
    }

    /// What a chunk holding `held` holds after each element of `items` is
    /// pushed in turn.
    pub open spec fn pushed_all(held: Seq<T>, items: Seq<T>) -> Seq<T>
        decreases items.len(),
    {
        if items.len() == 0 {
            held
        } else {
            Self::pushed(Self::pushed_all(held, items.drop_last()), items.last())
        }
    }

    /// The element that an insertion pushes out of a chunk holding `held`:
    /// the last one if the chunk is full, none otherwise.
    pub open spec fn evicted(held: Seq<T>) -> Option<T> {
        if Self::full(held) {
            Some(held.last())
        } else {
            None
        }
    }

    /// What a chunk holding `held` holds after `item` is inserted at `index`:
    /// a full chunk first gives up its last element, then everything from
    /// `index` on moves one place towards the end and `item` takes the place
    /// at `index`.
    pub open spec fn inserted(held: Seq<T>, index: int, item: T) -> Seq<T> {
        let kept = if Self::full(held) {
            held.drop_last()
        } else {
            held
        };
        kept.insert(index, item)
    }

    /// Pushes into an empty chunk add up while they fit: after no more than
    /// `N` pushes the chunk holds exactly what was pushed, in order, so after
    /// `k` pushes its length is `k`, and it is full when `N` were pushed and
    /// not before.
    pub proof fn lemma_pushes_fit(items: Seq<T>)
        requires
            items.len() <= N,
        ensures
            Self::pushed_all(Seq::empty(), items) == items,
            Self::full(Self::pushed_all(Seq::empty(), items)) <==> items.len() == N,
            forall|k: int|
                0 <= k <= items.len() ==> (#[trigger] Self::pushed_all(
                    Seq::empty(),
                    items.take(k),
                )).len() == k,
        decreases items.len(),
    {
        if items.len() > 0 {
            Self::lemma_pushes_fit(items.drop_last());
        }
        assert forall|k: int| 0 <= k <= items.len() implies (#[trigger] Self::pushed_all(
            Seq::empty(),
            items.take(k),
        )).len() == k by {
            if k == items.len() {
                assert(items.take(k) =~= items);
            } else {
                assert(items.drop_last().take(k) =~= items.take(k));
            }
        }
    }

    /// Inserting into a chunk with room left: nothing leaves, the chunk grows
    /// by one, `item` stands at `index`, what stood before `index` stays and
    /// what stood at or after it moves one place towards the end.
    pub proof fn lemma_insert_with_room(held: Seq<T>, index: int, item: T)
        requires
            held.len() < N,
            0 <= index <= held.len(),
        ensures
            Self::evicted(held) is None,
            Self::inserted(held, index, item).len() == held.len() + 1,
            Self::inserted(held, index, item)[index] == item,
            forall|j: int| 0 <= j < index ==> #[trigger] Self::inserted(held, index, item)[j] == held[j],
            forall|j: int|
                index <= j < held.len() ==> Self::inserted(held, index, item)[j + 1]
                    == #[trigger] held[j],
    {
        held.insert_ensures(index, item);
    }

    /// Inserting into a full chunk: the last element leaves, the length
    /// stays `N`, `item` stands at `index`, what stood before `index` stays
    /// and what stood from `index` up to the last element moves one place
    /// towards the end.
    pub proof fn lemma_insert_when_full(held: Seq<T>, index: int, item: T)
        requires
            held.len() == N,
            0 <= index < N,
        ensures
            Self::evicted(held) == Some(held[N - 1]),
            Self::inserted(held, index, item).len() == N,
            Self::inserted(held, index, item)[index] == item,
            forall|j: int| 0 <= j < index ==> #[trigger] Self::inserted(held, index, item)[j] == held[j],
            forall|j: int|
                index <= j < N - 1 ==> Self::inserted(held, index, item)[j + 1]
                    == #[trigger] held[j],
    {
        held.drop_last().insert_ensures(index, item);
    }

    /// Creates an empty chunk. Room for `N` elements is reserved at once
    /// where the allocator grants it.
    pub fn new() -> (chunk: Self)
        ensures
            chunk@ == Seq::<T>::empty(),
    {
        let mut items: Vec<T> = Vec::new();
        let _ = items.try_reserve(N);
        Chunk { items }
    }

    /// The capacity `N`.
    pub fn cap(&self) -> (cap: usize)
        ensures
            cap == N,
    {
        N
    }

    /// The number of elements held.
    pub fn len(&self) -> (len: usize)
        ensures
            len == self@.len(),
            len <= N,
    {
        proof {
            use_type_invariant(self);
        }
        self.items.len()
    }

    /// The elements held, in order.
    pub fn as_slice(&self) -> (slice: &[T])
        ensures
            slice@ == self@,
            slice@.len() <= N,
    {
        proof {
            use_type_invariant(self);
        }
        self.items.as_slice()
    }

    /// The elements held, in order, open to change in place. The chunk holds
    /// afterwards what the slice holds when the borrow ends.
    pub fn as_mut_slice(&mut self) -> (slice: &mut [T])
        ensures
            slice@ == old(self)@,
            final(self)@ == final(slice)@,
            final(slice)@.len() == slice@.len(),
    {
        proof {
            use_type_invariant(&*self);
        }
        vec_as_mut_slice(&mut self.items)
    }

    /// Whether the chunk holds `N` elements.
    pub fn is_full(&self) -> (full: bool)
        ensures
            full == Self::full(self@),
    {
        self.len() == self.cap()
    }

    /// Hands `item` back as `Ok` if the chunk has room for it, as `Err` if
    /// the chunk is full.
    fn parse_non_full(&self, item: T) -> (res: Result<T, T>)
        ensures
            res == if Self::full(self@) {
                Err::<T, T>(item)
            } else {
                Ok::<T, T>(item)
            },
    {
        if self.is_full() {
            Err(item)
        } else {
            Ok(item)
        }
    }

    /// Appends `item` if there is room and returns the place where it now
    /// lives. A full chunk is left untouched and `item` comes back as `Err`.
    pub fn push(&mut self, item: T) -> (res: Result<&mut T, T>)
        ensures
            res is Err <==> Self::full(old(self)@),
            res matches Ok(slot) ==> *slot == item && final(self)@ == Self::pushed(
                old(self)@,
                *final(slot),
            ),
            res matches Err(back) ==> back == item && final(self)@ == old(self)@,
            final(self)@.len() <= N,
    {
        proof {
            use_type_invariant(&*self);
        }
        let item = self.parse_non_full(item)?;
        let mut items: Vec<T> = Vec::new();
        std::mem::swap(&mut items, &mut self.items);
        items.push(item);
        self.items = items;
        let last: usize = self.items.len() - 1;
        Ok(&mut self.items[last])
    }

    /// Inserts `item` at `index` and returns the place where it now lives,
    /// together with the element that had to leave: a full chunk gives up
    /// its last element, any other chunk grows by one.
    pub fn insert(&mut self, index: usize, item: T) -> (res: (&mut T, Option<T>))
        requires
            index < N,
            index <= old(self)@.len(),
        ensures
            *res.0 == item,
            res.1 == Self::evicted(old(self)@),
            final(self)@ == Self::inserted(old(self)@, index as int, *final(res.0)),
            final(self)@.len() <= N,
    {
        proof {
            use_type_invariant(&*self);
        }
        if index >= N || index > self.items.len() {
            // Only a caller that was not verified gets here: it is stopped
            // before anything is changed.
            unreached::<()>();
        }
        let full = self.is_full();
        let mut items: Vec<T> = Vec::new();
        std::mem::swap(&mut items, &mut self.items);
        let evicted = if full {
            items.pop()
        } else {
            None
        };
        items.insert(index, item);
        self.items = items;
        (&mut self.items[index], evicted)
    }
}

/// The elements behind each slice of a list of slices, in the list's order.
pub open spec fn slice_views<T>(slices: Seq<&[T]>) -> Seq<Seq<T>> {
    Seq::new(slices.len(), |i: int| slices[i]@)
}

/// Lists the chunks' elements as one slice per chunk, in the chunks' order.
pub fn cast_slice<T, const N: usize>(slice: &[Chunk<T, N>]) -> (out: Vec<&[T]>)
    ensures
        out@.len() == slice@.len(),
        forall|i: int| 0 <= i < out@.len() ==> out@[i]@ == (#[trigger] slice@[i])@,
{
    let mut out: Vec<&[T]> = Vec::new();
    let mut i: usize = 0;
    while i < slice.len()
        invariant
            i <= slice@.len(),
            out@.len() == i,
            forall|k: int| 0 <= k < i ==> out@[k]@ == (#[trigger] slice@[k])@,
        decreases slice@.len() - i,
    {
        out.push(slice[i].as_slice());
        i = i + 1;
    }
    out
}

/// Lists the chunks' elements as one slice per chunk, in the chunks' order,
/// each open to change in place. Every chunk holds afterwards what its slice
/// holds when the borrow ends, which is as many elements as before.
pub fn cast_slice_mut<T, const N: usize>(slice: &mut [Chunk<T, N>]) -> (out: Vec<&mut [T]>)
    ensures
        out@.len() == old(slice)@.len(),
        final(slice)@.len() == old(slice)@.len(),
        forall|i: int| 0 <= i < out@.len() ==> out@[i]@ == (#[trigger] old(slice)@[i])@,
        forall|i: int|
            0 <= i < out@.len() ==> {
                &&& (#[trigger] final(slice)@[i])@ == final(out@[i])@
                &&& final(slice)@[i]@.len() == old(slice)@[i]@.len()
            },
{
    let mut out: Vec<&mut [T]> = Vec::new();
    let mut rest = slice;
    while rest.len() > 0
        invariant
            out@.len() + rest@.len() == old(slice)@.len(),
            final(slice)@.len() == out@.len() + final(rest)@.len(),
            forall|i: int| 0 <= i < out@.len() ==> out@[i]@ == (#[trigger] old(slice)@[i])@,
            forall|i: int|
                0 <= i < out@.len() ==> {
                    &&& (#[trigger] final(slice)@[i])@ == final(out@[i])@
                    &&& final(slice)@[i]@.len() == old(slice)@[i]@.len()
                },
            forall|j: int|
                0 <= j < rest@.len() ==> #[trigger] rest@[j] == old(slice)@[out@.len() + j],
            forall|k: int|
                out@.len() <= k < final(slice)@.len() ==> #[trigger] final(slice)@[k]
                    == final(rest)@[k - out@.len()],
        decreases rest@.len(),
    {
        let cur = rest;
        let (head, tail) = cur.split_at_mut(1);
        if let Some(first) = head.first_mut() {
            out.push(first.as_mut_slice());
        }
        rest = tail;
    }
    out
}

impl<T, const N: usize> std::ops::Deref for Chunk<T, N> {
    type Target = [T];

    /// The elements held, as `as_slice` gives them.
    fn deref(&self) -> (slice: &[T])
        ensures
            slice@ == self@,
    {
        self.as_slice()
    }
}

impl<T, const N: usize> std::ops::DerefMut for Chunk<T, N> {
    /// The elements held, as `as_mut_slice` gives them.
    fn deref_mut(&mut self) -> (slice: &mut [T])
        ensures
            slice@ == old(self)@,
            final(self)@ == final(slice)@,
            final(slice)@.len() == slice@.len(),
    {
        self.as_mut_slice()
    }
}

} // verus!
