//! The layout of a sequence that is stored in segments of a fixed capacity.
//!
//! A segmented sequence is modelled as a `Seq<Seq<T>>`: one inner sequence
//! per segment, in order. Its contents are the inner sequences joined
//! together, `segs.flatten()`.

use vstd::arithmetic::div_mod::{lemma_fundamental_div_mod, lemma_fundamental_div_mod_converse};
use vstd::prelude::*;

verus! {

/// Whether `segs` is laid out as a sequence filled from the front in segments
/// of capacity `cap`: no segment is empty or holds more than `cap` elements,
/// and every segment but the last holds exactly `cap`.
pub open spec fn packed<T>(segs: Seq<Seq<T>>, cap: nat) -> bool {
    forall|i: int|
        0 <= i < segs.len() ==> {
            &&& 0 < (#[trigger] segs[i]).len() <= cap
            &&& i + 1 < segs.len() ==> segs[i].len() == cap
        }
}

/// The segments after `item` is appended: it joins the last segment if that
/// one has room, and starts a new segment otherwise.
pub open spec fn appended<T>(segs: Seq<Seq<T>>, cap: nat, item: T) -> Seq<Seq<T>> {
    if segs.len() > 0 && segs.last().len() < cap {
        segs.update(segs.len() - 1, segs.last().push(item))
    } else {
        segs.push(seq![item])
    }
}

/// The segments after each element of `items` is appended in turn.
pub open spec fn appended_all<T>(segs: Seq<Seq<T>>, cap: nat, items: Seq<T>) -> Seq<Seq<T>>
    decreases items.len(),
{
    if items.len() == 0 {
        segs
    } else {
        appended(appended_all(segs, cap, items.drop_last()), cap, items.last())
    }
}

/// The number of segments of capacity `cap` that `len` elements take:
/// `len / cap`, rounded up.
pub open spec fn segments_needed(len: nat, cap: nat) -> nat {
    ((len + cap - 1) / (cap as int)) as nat
}

proof fn lemma_offset_in_range(i: int, j: int, count: int, cap: int)
    requires
        0 <= i < count,
        0 <= j < cap,
    ensures
        0 <= i * cap + j < count * cap,
        i * cap + cap == (i + 1) * cap,
{
    assert(0 <= i * cap) by (nonlinear_arith)
        requires
            0 <= i,
            0 <= cap,
    ;
    assert(i * cap + cap == (i + 1) * cap) by (nonlinear_arith);
    assert((i + 1) * cap <= count * cap) by (nonlinear_arith)
        requires
            i + 1 <= count,
            0 <= cap,
    ;
}

/// Where the elements of a packed layout stand in its contents: element `j`
/// of segment `i` is element `i * cap + j` of the whole, and the whole has as
/// many elements as the full segments and the last one hold together.
pub proof fn lemma_packed_flatten<T>(segs: Seq<Seq<T>>, cap: nat)
    requires
        packed(segs, cap),
    ensures
        segs.len() == 0 ==> segs.flatten().len() == 0,
        segs.len() > 0 ==> segs.flatten().len() == (segs.len() - 1) * cap + segs.last().len(),
        forall|i: int, j: int|
            0 <= i < segs.len() && 0 <= j < segs[i].len() ==> segs.flatten()[i * cap + j]
                == #[trigger] segs[i][j],
    decreases segs.len(),
{
    if segs.len() > 0 {
        let front = segs.drop_last();
        let last = segs.last();
        let count = front.len() as int;
        assert forall|i: int| 0 <= i < front.len() implies {
            &&& 0 < (#[trigger] front[i]).len() <= cap
            &&& i + 1 < front.len() ==> front[i].len() == cap
        } by {
            assert(front[i] == segs[i]);
        }
        lemma_packed_flatten(front, cap);
        assert(segs =~= front.push(last));
        front.lemma_flatten_push(last);
        assert(front.flatten().len() == count * cap) by {
            if count > 0 {
                assert((count - 1) * cap + cap == count * cap) by (nonlinear_arith);
            } else {
                assert(count * cap == 0) by (nonlinear_arith)
                    requires
                        count == 0,
                ;
            }
        }
        assert forall|i: int, j: int|
            0 <= i < segs.len() && 0 <= j < segs[i].len() implies segs.flatten()[i * cap + j]
            == #[trigger] segs[i][j] by {
            if i < count {
                assert(front[i] == segs[i]);
                lemma_offset_in_range(i, j, count, cap as int);
            }
        }
    }
}

/// The converse: a packed layout whose elements stand in `flat` where the
/// layout puts them, and which holds as many elements as `flat`, has `flat`
/// as its contents.
pub proof fn lemma_flatten_by_position<T>(segs: Seq<Seq<T>>, cap: nat, flat: Seq<T>)
    requires
        packed(segs, cap),
        segs.len() == 0 ==> flat.len() == 0,
        segs.len() > 0 ==> flat.len() == (segs.len() - 1) * cap + segs.last().len(),
        forall|i: int, j: int|
            0 <= i < segs.len() && 0 <= j < segs[i].len() ==> flat[i * cap + j]
                == #[trigger] segs[i][j],
    ensures
        segs.flatten() == flat,
{
    lemma_packed_flatten(segs, cap);
    assert forall|p: int| 0 <= p < flat.len() implies segs.flatten()[p] == flat[p] by {
        let count = segs.len() as int;
        let d = cap as int;
        let i = p / d;
        let j = p % d;
        lemma_fundamental_div_mod(p, d);
        assert((count - 1) * d + d == count * d) by (nonlinear_arith);
        assert(0 <= i < count) by (nonlinear_arith)
            requires
                0 <= p < count * d,
                p == d * i + j,
                0 <= j < d,
        ;
        if i == count - 1 {
            assert(d * i == (count - 1) * d) by (nonlinear_arith)
                requires
                    i == count - 1,
            ;
        }
        assert(flat[i * cap + j] == segs[i][j]);
    }
}

/// One append keeps a packed layout packed and puts `item` at the end of the
/// contents.
pub proof fn lemma_appended<T>(segs: Seq<Seq<T>>, cap: nat, item: T)
    requires
        packed(segs, cap),
        cap > 0,
    ensures
        packed(appended(segs, cap, item), cap),
        appended(segs, cap, item).flatten() == segs.flatten().push(item),
{
    let after = appended(segs, cap, item);
    if segs.len() > 0 && segs.last().len() < cap {
        let front = segs.drop_last();
        assert(segs =~= front.push(segs.last()));
        assert(after =~= front.push(segs.last().push(item)));
        front.lemma_flatten_push(segs.last());
        front.lemma_flatten_push(segs.last().push(item));
    } else {
        segs.lemma_flatten_push(seq![item]);
    }
    assert forall|i: int| 0 <= i < after.len() implies {
        &&& 0 < (#[trigger] after[i]).len() <= cap
        &&& i + 1 < after.len() ==> after[i].len() == cap
    } by {
        if i < segs.len() {
            assert(0 < segs[i].len() <= cap);
        }
    }
}

/// Appending the elements of `items` one by one keeps a packed layout packed
/// and puts them, in order, at the end of the contents.
pub proof fn lemma_appended_all<T>(segs: Seq<Seq<T>>, cap: nat, items: Seq<T>)
    requires
        packed(segs, cap),
        cap > 0,
    ensures
        packed(appended_all(segs, cap, items), cap),
        appended_all(segs, cap, items).flatten() == segs.flatten() + items,
    decreases items.len(),
{
    if items.len() > 0 {
        let before = appended_all(segs, cap, items.drop_last());
        lemma_appended_all(segs, cap, items.drop_last());
        lemma_appended(before, cap, items.last());
    }
}

/// The shape of a packed layout is fixed by the number of elements it holds:
/// `M` elements in segments of capacity `cap` take `M / cap` segments,
/// rounded up; every segment but the last is full, and the last holds what
/// the full ones leave.
pub proof fn lemma_packed_shape<T>(segs: Seq<Seq<T>>, cap: nat)
    requires
        packed(segs, cap),
        cap > 0,
    ensures
        segs.len() == segments_needed(segs.flatten().len(), cap),
        forall|i: int| 0 <= i < segs.len() - 1 ==> (#[trigger] segs[i]).len() == cap,
        segs.len() > 0 ==> segs.last().len() == segs.flatten().len() - cap * (segs.len() - 1),
{
    lemma_packed_flatten(segs, cap);
    let count = segs.len() as int;
    let total = segs.flatten().len() as int;
    let d = cap as int;
    if count > 0 {
        let last = segs.last().len() as int;
        assert(total + d - 1 == count * d + (last - 1)) by (nonlinear_arith)
            requires
                total == (count - 1) * d + last,
        ;
        lemma_fundamental_div_mod_converse(total + d - 1, d, count, last - 1);
        assert(cap * (count - 1) == (count - 1) * d) by (nonlinear_arith)
            requires
                d == cap,
        ;
    } else {
        lemma_fundamental_div_mod_converse(d - 1, d, 0, d - 1);
    }
}

/// A layout with the segment lengths of a packed layout is packed as well and
/// holds as many elements.
pub proof fn lemma_same_shape<T>(a: Seq<Seq<T>>, b: Seq<Seq<T>>, cap: nat)
    requires
        packed(a, cap),
        b.len() == a.len(),
        forall|i: int| 0 <= i < a.len() ==> (#[trigger] b[i]).len() == a[i].len(),
    ensures
        packed(b, cap),
        b.flatten().len() == a.flatten().len(),
{
    assert forall|i: int| 0 <= i < b.len() implies {
        &&& 0 < (#[trigger] b[i]).len() <= cap
        &&& i + 1 < b.len() ==> b[i].len() == cap
    } by {
        assert(0 < a[i].len() <= cap);
    }
    lemma_packed_flatten(a, cap);
    lemma_packed_flatten(b, cap);
}

/// Two packed layouts of the same capacity with the same contents are the
/// same layout.
pub proof fn lemma_packed_unique<T>(a: Seq<Seq<T>>, b: Seq<Seq<T>>, cap: nat)
    requires
        packed(a, cap),
        packed(b, cap),
        a.flatten() == b.flatten(),
    ensures
        a == b,
{
    if cap == 0 {
        assert(a.len() == 0) by {
            if a.len() > 0 {
                assert(0 < a[0].len() <= cap);
            }
        }
        assert(b.len() == 0) by {
            if b.len() > 0 {
                assert(0 < b[0].len() <= cap);
            }
        }
    } else {
        lemma_packed_shape(a, cap);
        lemma_packed_shape(b, cap);
        lemma_packed_flatten(a, cap);
        lemma_packed_flatten(b, cap);
        assert forall|i: int| 0 <= i < a.len() implies #[trigger] a[i] == b[i] by {
            assert forall|j: int| 0 <= j < a[i].len() implies a[i][j] == b[i][j] by {
                assert(a.flatten()[i * cap + j] == a[i][j]);
                assert(b.flatten()[i * cap + j] == b[i][j]);
            }
        }
    }
}

/// How `len / cap`, rounded up, brackets `len`: no element needs no segment,
/// and otherwise the last segment is the one that `len` reaches into.
pub proof fn lemma_segments_needed(len: nat, cap: nat)
    requires
        cap > 0,
    ensures
        len == 0 ==> segments_needed(len, cap) == 0,
        len > 0 ==> segments_needed(len, cap) > 0 && (segments_needed(len, cap) - 1) * cap < len
            <= segments_needed(len, cap) * cap,
{
    let d = cap as int;
    let x = len + cap - 1;
    lemma_fundamental_div_mod(x, d);
    let q = x / d;
    let r = x % d;
    assert(0 <= q && (len > 0 ==> q > 0) && (len == 0 ==> q == 0)) by (nonlinear_arith)
        requires
            x == d * q + r,
            0 <= r < d,
            x == len + d - 1,
            0 <= len,
    ;
    assert((q - 1) * d == d * q - d && q * d == d * q) by (nonlinear_arith);
}

/// The packed layout of `flat`: segment `i` holds the elements of `flat`
/// from position `i * cap` up to the next multiple of `cap`, or up to the end
/// of `flat` if that comes first.
pub open spec fn split<T>(flat: Seq<T>, cap: nat) -> Seq<Seq<T>> {
    Seq::new(
        segments_needed(flat.len(), cap),
        |i: int|
            flat.subrange(
                i * cap,
                if (i + 1) * cap <= flat.len() {
                    (i + 1) * cap
                } else {
                    flat.len() as int
                },
            ),
    )
}

/// `split` gives a packed layout that holds what was split.
pub proof fn lemma_split<T>(flat: Seq<T>, cap: nat)
    requires
        cap > 0,
    ensures
        packed(split(flat, cap), cap),
        split(flat, cap).flatten() == flat,
{
    let segs = split(flat, cap);
    let count = segs.len() as int;
    let d = cap as int;
    lemma_segments_needed(flat.len(), cap);
    assert forall|i: int| 0 <= i < count implies {
        &&& 0 <= i * d < flat.len()
        &&& (#[trigger] segs[i]).len() == if i + 1 < count {
            d
        } else {
            flat.len() - i * d
        }
        &&& 0 < segs[i].len() <= cap
    } by {
        lemma_offset_in_range(i, 0, count, d);
        assert((i + 1) * d <= (count - 1) * d || i + 1 == count) by (nonlinear_arith)
            requires
                i + 1 <= count,
                0 < d,
        ;
    }
    assert forall|i: int, j: int| 0 <= i < segs.len() && 0 <= j < segs[i].len() implies flat[i * cap
        + j] == #[trigger] segs[i][j] by {
        lemma_offset_in_range(i, 0, count, d);
    }
    if count > 0 {
        assert(segs.last().len() == flat.len() - (count - 1) * d);
    }
    lemma_flatten_by_position(segs, cap, flat);
}

/// A packed layout is the `split` of its contents.
pub proof fn lemma_packed_is_split<T>(segs: Seq<Seq<T>>, cap: nat)
    requires
        packed(segs, cap),
        cap > 0,
    ensures
        segs == split(segs.flatten(), cap),
{
    lemma_split(segs.flatten(), cap);
    lemma_packed_unique(segs, split(segs.flatten(), cap), cap);
}

proof fn lemma_mul_order(a: int, b: int, d: int)
    requires
        d > 0,
    ensures
        a * d < b * d ==> a < b,
        a <= b ==> a * d <= b * d,
        (a + 1) * d == a * d + d,
{
    assert(a * d < b * d ==> a < b) by (nonlinear_arith)
        requires
            d > 0,
    ;
    assert(a <= b ==> a * d <= b * d) by (nonlinear_arith)
        requires
            d > 0,
    ;
    assert((a + 1) * d == a * d + d) by (nonlinear_arith);
}

/// An insertion of `item` at `index` under way in the packed layout `segs`:
/// the segments before `k` are done, and `carry` is the element that goes to
/// place `at` of segment `k`, which is where it stands in the contents once
/// `item` is inserted.
pub(crate) open spec fn carrying<T>(
    segs: Seq<Seq<T>>,
    cap: nat,
    index: int,
    item: T,
    k: int,
    at: int,
    carry: T,
) -> bool {
    &&& packed(segs, cap)
    &&& cap > 0
    &&& 0 <= index <= segs.flatten().len()
    &&& 0 <= k <= segs.len()
    &&& 0 <= at < cap
    &&& index <= k * cap + at <= segs.flatten().len()
    &&& (k * cap + at == index || at == 0)
    &&& carry == segs.flatten().insert(index, item)[k * cap + at]
}

/// An insertion starts in the segment that `index` falls into, with `item`
/// as the element to place; the segments before it are already what the
/// layout after the insertion has there.
pub(crate) proof fn lemma_insert_start<T>(segs: Seq<Seq<T>>, cap: nat, index: int, item: T)
    requires
        packed(segs, cap),
        cap > 0,
        0 <= index <= segs.flatten().len(),
    ensures
        carrying(segs, cap, index, item, index / (cap as int), index % (cap as int), item),
        index / (cap as int) < split(segs.flatten().insert(index, item), cap).len(),
        forall|i: int|
            0 <= i < index / (cap as int) ==> #[trigger] segs[i] == split(
                segs.flatten().insert(index, item),
                cap,
            )[i],
{
    let flat = segs.flatten();
    let target = flat.insert(index, item);
    let want = split(target, cap);
    let count = segs.len() as int;
    let d = cap as int;
    let k = index / d;
    let at = index % d;
    lemma_packed_flatten(segs, cap);
    flat.insert_ensures(index, item);
    lemma_segments_needed(target.len(), cap);
    lemma_fundamental_div_mod(index, d);
    lemma_mul_order(count, k, d);
    lemma_mul_order(count - 1, count, d);
    lemma_mul_order(count + 1, k, d);
    assert(d * k == k * d) by (nonlinear_arith);
    assert(0 <= k) by (nonlinear_arith)
        requires
            index == d * k + at,
            0 <= index,
            0 <= at < d,
    ;
    if count == 0 {
        assert(count * d == 0) by (nonlinear_arith)
            requires
                count == 0,
        ;
    }
    assert(flat.len() <= count * d);
    assert(k <= count);
    lemma_mul_order(want.len() as int, k, d);
    assert(k < want.len());
    assert forall|i: int| 0 <= i < k implies #[trigger] segs[i] == want[i] by {
        lemma_mul_order(i + 1, k, d);
        lemma_mul_order(i, i + 1, d);
        assert(want[i] == target.subrange(i * d, (i + 1) * d));
        assert forall|j: int| 0 <= j < d implies segs[i][j] == want[i][j] by {
            assert(flat[i * cap + j] == segs[i][j]);
            assert(target[i * d + j] == flat[i * d + j]);
        }
    }
}

/// One step of an insertion, in segment `k`. There is room for `carry` at
/// `at`. If the segment is full, dropping its last element and inserting
/// `carry` makes it what the layout after the insertion has there, and the
/// dropped element is carried to the front of the next segment. If it has
/// room, inserting `carry` makes it the last segment of the layout after the
/// insertion.
pub(crate) proof fn lemma_insert_step<T>(
    segs: Seq<Seq<T>>,
    cap: nat,
    index: int,
    item: T,
    k: int,
    at: int,
    carry: T,
)
    requires
        carrying(segs, cap, index, item, k, at, carry),
        k < segs.len(),
    ensures
        at <= segs[k].len(),
        k < split(segs.flatten().insert(index, item), cap).len(),
        segs[k].len() == cap ==> {
            &&& segs[k].drop_last().insert(at, carry) == split(
                segs.flatten().insert(index, item),
                cap,
            )[k]
            &&& carrying(segs, cap, index, item, k + 1, 0, segs[k].last())
            &&& k + 1 < split(segs.flatten().insert(index, item), cap).len()
        },
        segs[k].len() < cap ==> {
            &&& segs[k].insert(at, carry) == split(segs.flatten().insert(index, item), cap)[k]
            &&& split(segs.flatten().insert(index, item), cap).len() == k + 1
            &&& segs.len() == k + 1
        },
{
    let flat = segs.flatten();
    let target = flat.insert(index, item);
    let want = split(target, cap);
    let count = segs.len() as int;
    let wc = want.len() as int;
    let d = cap as int;
    let seg = segs[k];
    let len = seg.len() as int;
    let base = k * d;
    lemma_packed_flatten(segs, cap);
    flat.insert_ensures(index, item);
    lemma_segments_needed(target.len(), cap);
    lemma_mul_order(k + 1, count - 1, d);
    lemma_mul_order(k, wc, d);
    lemma_mul_order(wc - 1, k + 1, d);
    assert forall|j: int| 0 <= j < len implies flat[base + j] == #[trigger] seg[j] by {
        assert(flat[k * cap + j] == segs[k][j]);
    }
    assert(at <= len);
    if len == d {
        let after = seg.drop_last().insert(at, carry);
        seg.drop_last().insert_ensures(at, carry);
        assert(k + 1 < wc);
        assert(want[k] == target.subrange(base, base + d));
        assert forall|j: int| 0 <= j < d implies after[j] == want[k][j] by {
            if j < at {
                assert(target[base + j] == flat[base + j]);
            } else if j > at {
                assert(after[(j - 1) + 1] == seg[j - 1]);
                assert(target[(base + j - 1) + 1] == flat[base + j - 1]);
            }
        }
        assert(seg.last() == target[(base + d - 1) + 1]);
    } else {
        let after = seg.insert(at, carry);
        seg.insert_ensures(at, carry);
        assert(count == k + 1 && wc == k + 1);
        assert(want[k] == target.subrange(base, target.len() as int));
        assert forall|j: int| 0 <= j < len + 1 implies after[j] == want[k][j] by {
            if j < at {
                assert(target[base + j] == flat[base + j]);
            } else if j > at {
                assert(after[(j - 1) + 1] == seg[j - 1]);
                assert(target[(base + j - 1) + 1] == flat[base + j - 1]);
            }
        }
    }
}

/// An insertion that has passed every segment ends with a new segment that
/// holds `carry` alone.
pub(crate) proof fn lemma_insert_end<T>(
    segs: Seq<Seq<T>>,
    cap: nat,
    index: int,
    item: T,
    at: int,
    carry: T,
)
    requires
        carrying(segs, cap, index, item, segs.len() as int, at, carry),
    ensures
        split(segs.flatten().insert(index, item), cap).len() == segs.len() + 1,
        split(segs.flatten().insert(index, item), cap)[segs.len() as int] == seq![carry],
{
    let flat = segs.flatten();
    let target = flat.insert(index, item);
    let want = split(target, cap);
    let count = segs.len() as int;
    let wc = want.len() as int;
    let d = cap as int;
    lemma_packed_flatten(segs, cap);
    flat.insert_ensures(index, item);
    lemma_segments_needed(target.len(), cap);
    lemma_mul_order(count - 1, count, d);
    lemma_mul_order(count, wc, d);
    lemma_mul_order(wc - 1, count + 1, d);
    if count == 0 {
        assert(count * d == 0) by (nonlinear_arith)
            requires
                count == 0,
        ;
    }
    assert(flat.len() == count * d && at == 0);
    assert(wc == count + 1);
    assert(want[count] == target.subrange(count * d, target.len() as int));
}

/// Filling an empty layout with `items`, one append after the other, stores
/// exactly `items`, in order, in `items.len() / cap` segments, rounded up,
/// all of them full but for the last, which holds the rest.
pub proof fn lemma_filled<T>(cap: nat, items: Seq<T>)
    requires
        cap > 0,
    ensures
        ({
            let segs = appended_all(Seq::<Seq<T>>::empty(), cap, items);
            &&& packed(segs, cap)
            &&& segs.flatten() == items
            &&& segs.len() == segments_needed(items.len(), cap)
            &&& forall|i: int| 0 <= i < segs.len() - 1 ==> (#[trigger] segs[i]).len() == cap
            &&& segs.len() > 0 ==> segs.last().len() == items.len() - cap * (segs.len() - 1)
        }),
{
    let none = Seq::<Seq<T>>::empty();
    lemma_appended_all(none, cap, items);
    lemma_packed_shape(appended_all(none, cap, items), cap);
}

} // verus!
