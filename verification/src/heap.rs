//! The heap allocator: first fit over an address-ordered free list, with
//! fresh blocks carved downward from the top of the image.

use vstd::prelude::*;
use crate::word::WORDCOUNT;

verus! {

/// The allocator's books.
pub struct Heap {
    /// The word just below the lowest block ever carved.
    pub heap_top: usize,
    /// Free ranges as `(start, size)`, in address order.
    pub free_list: Vec<(usize, usize)>,
    /// For each word, the size of the live block that starts there, or 0.
    pub alloc_sizes: Vec<usize>,
}

/// The allocator's books as mathematical values.
pub struct HeapView {
    pub top: int,
    pub free: Seq<(usize, usize)>,
    pub sizes: Seq<usize>,
}

impl View for Heap {
    type V = HeapView;

    open spec fn view(&self) -> HeapView {
        HeapView { top: self.heap_top as int, free: self.free_list@, sizes: self.alloc_sizes@ }
    }
}

/// Word `x` lies in a live block.
pub open spec fn in_live(h: HeapView, x: int) -> bool {
    exists|a: int| 0 <= a <= x && a < h.sizes.len() && #[trigger] h.sizes[a] > 0 && x < a + h.sizes[a]
}

/// Word `x` lies in a free range.
pub open spec fn in_free(h: HeapView, x: int) -> bool {
    exists|i: int| 0 <= i < h.free.len() && (#[trigger] h.free[i]).0 <= x < h.free[i].0 + h.free[i].1
}

/// The books are sound: live blocks and free ranges lie above `top`, no two
/// of them share a word, together they cover every word above `top`, and
/// the free list is in address order with a gap between any two ranges.
pub open spec fn heap_wf(h: HeapView) -> bool {
    &&& h.sizes.len() == WORDCOUNT
    &&& 0 <= h.top < WORDCOUNT
    &&& forall|a: int|
        0 <= a < WORDCOUNT && #[trigger] h.sizes[a] > 0 ==> h.top < a && a + h.sizes[a] <= WORDCOUNT
    &&& forall|a: int, b: int|
        0 <= a < b < WORDCOUNT && #[trigger] h.sizes[a] > 0 && #[trigger] h.sizes[b] > 0 ==> a
            + h.sizes[a] <= b
    &&& forall|i: int|
        0 <= i < h.free.len() ==> (#[trigger] h.free[i]).1 > 0 && h.top < h.free[i].0 && h.free[i].0
            + h.free[i].1 <= WORDCOUNT
    &&& forall|i: int, j: int|
        0 <= i < j < h.free.len() ==> (#[trigger] h.free[i]).0 + h.free[i].1 < (
        #[trigger] h.free[j]).0
    &&& forall|i: int, a: int|
        0 <= i < h.free.len() && 0 <= a < WORDCOUNT && #[trigger] h.sizes[a] > 0 ==> a + h.sizes[a]
            <= (#[trigger] h.free[i]).0 || h.free[i].0 + h.free[i].1 <= a
    &&& forall|x: int| h.top < x < WORDCOUNT ==> in_live(h, x) || in_free(h, x)
}

/// Index of the first free range at or after `i` that holds `n` words, or
/// the length of the list where there is none.
pub open spec fn first_fit(free: Seq<(usize, usize)>, n: int, i: int) -> int
    decreases free.len() - i,
{
    if i < 0 || i >= free.len() {
        free.len() as int
    } else if free[i].1 >= n {
        i
    } else {
        first_fit(free, n, i + 1)
    }
}

/// Index of the first free range at or after `i` that starts at or above
/// `a`, or the length of the list where there is none.
pub open spec fn insert_pos(free: Seq<(usize, usize)>, a: int, i: int) -> int
    decreases free.len() - i,
{
    if i < 0 || i >= free.len() {
        free.len() as int
    } else if free[i].0 >= a {
        i
    } else {
        insert_pos(free, a, i + 1)
    }
}

/// The books and the result after a request for `n` words while the stack
/// pointer is `sp`. The first free range that is large enough gives its
/// low `n` words; failing that the block is carved from the top, unless it
/// would come within a word of the stack; failing that the result is 0.
pub open spec fn getvec_spec(h: HeapView, n: int, sp: int) -> (HeapView, int) {
    let i = first_fit(h.free, n, 0);
    if n <= 0 || n >= WORDCOUNT {
        (h, 0)
    } else if i < h.free.len() {
        let a = h.free[i].0;
        let size = h.free[i].1;
        let free = if size == n {
            h.free.remove(i)
        } else {
            h.free.update(i, ((a + n) as usize, (size - n) as usize))
        };
        (HeapView { top: h.top, free: free, sizes: h.sizes.update(a as int, n as usize) }, a as int)
    } else if h.top >= n && h.top + 1 - n > sp + 1 {
        let start = h.top + 1 - n;
        (
            HeapView { top: start - 1, free: h.free, sizes: h.sizes.update(start, n as usize) },
            start,
        )
    } else {
        (h, 0)
    }
}

/// The free list after the range `(a, size)` went in at its place in
/// address order and was joined with each neighbour that touches it.
pub open spec fn free_after(free: Seq<(usize, usize)>, a: int, size: int) -> Seq<(usize, usize)> {
    let k = insert_pos(free, a, 0);
    let joins_prev = k > 0 && free[k - 1].0 + free[k - 1].1 == a;
    let joins_next = k < free.len() && a + size == free[k].0;
    if joins_prev && joins_next {
        free.update(k - 1, (free[k - 1].0, (free[k - 1].1 + size + free[k].1) as usize)).remove(k)
    } else if joins_prev {
        free.update(k - 1, (free[k - 1].0, (free[k - 1].1 + size) as usize))
    } else if joins_next {
        free.update(k, (a as usize, (size + free[k].1) as usize))
    } else {
        free.insert(k, (a as usize, size as usize))
    }
}

/// The books and the result after the block at `a` was given back: 1 where
/// a live block starts at `a`, else 0 and nothing changes.
pub open spec fn freevec_spec(h: HeapView, a: int) -> (HeapView, int) {
    if a < 0 || a >= h.sizes.len() || h.sizes[a] == 0 {
        (h, 0)
    } else {
        (
            HeapView {
                top: h.top,
                free: free_after(h.free, a, h.sizes[a] as int),
                sizes: h.sizes.update(a, 0usize),
            },
            1,
        )
    }
}

proof fn lemma_first_fit(free: Seq<(usize, usize)>, n: int, i: int)
    requires
        0 <= i <= free.len(),
    ensures
        i <= first_fit(free, n, i) <= free.len(),
        first_fit(free, n, i) < free.len() ==> free[first_fit(free, n, i)].1 >= n,
        forall|j: int| i <= j < first_fit(free, n, i) ==> (#[trigger] free[j]).1 < n,
    decreases free.len() - i,
{
    if i < free.len() && free[i].1 < n {
        lemma_first_fit(free, n, i + 1);
    }
}

proof fn lemma_insert_pos(free: Seq<(usize, usize)>, a: int, i: int)
    requires
        0 <= i <= free.len(),
    ensures
        i <= insert_pos(free, a, i) <= free.len(),
        insert_pos(free, a, i) < free.len() ==> free[insert_pos(free, a, i)].0 >= a,
        forall|j: int| i <= j < insert_pos(free, a, i) ==> (#[trigger] free[j]).0 < a,
    decreases free.len() - i,
{
    if i < free.len() && free[i].0 < a {
        lemma_insert_pos(free, a, i + 1);
    }
}

/// A sound heap stays sound through a request, and a block that is handed
/// out is live, lies above the old `top` or inside a range that was free,
/// and has the size asked for.
pub proof fn lemma_getvec_keeps_wf(h: HeapView, n: int, sp: int)
    requires
        heap_wf(h),
        0 <= sp,
    ensures
        heap_wf(getvec_spec(h, n, sp).0),
        getvec_spec(h, n, sp).1 != 0 ==> 0 < getvec_spec(h, n, sp).1 && getvec_spec(h, n, sp).1 + n
            <= WORDCOUNT && getvec_spec(h, n, sp).0.sizes[getvec_spec(h, n, sp).1] == n,
        0 <= getvec_spec(h, n, sp).1 < WORDCOUNT,
{
    let i = first_fit(h.free, n, 0);
    lemma_first_fit(h.free, n, 0);
    let r = getvec_spec(h, n, sp).0;
    if n <= 0 || n >= WORDCOUNT {
    } else if i < h.free.len() {
        let a = h.free[i].0 as int;
        let size = h.free[i].1 as int;
        assert(h.sizes[a] == 0) by {
            if h.sizes[a] > 0 {
                assert(a + h.sizes[a] <= h.free[i].0 || h.free[i].0 + h.free[i].1 <= a);
            }
        }
        if size == n {
            assert(r.free == h.free.remove(i));
            assert forall|j: int| 0 <= j < r.free.len() implies #[trigger] r.free[j] == h.free[if j
                < i {
                j
            } else {
                j + 1
            }] by {}
            assert forall|x: int| r.top < x < WORDCOUNT implies in_live(r, x) || in_free(r, x) by {
                if in_live(h, x) {
                    let a0 = choose|a0: int|
                        0 <= a0 <= x && a0 < h.sizes.len() && #[trigger] h.sizes[a0] > 0 && x < a0
                            + h.sizes[a0];
                    assert(r.sizes[a0] > 0 && x < a0 + r.sizes[a0]);
                } else {
                    let j = choose|j: int|
                        0 <= j < h.free.len() && (#[trigger] h.free[j]).0 <= x < h.free[j].0
                            + h.free[j].1;
                    if j == i {
                        assert(r.sizes[a] > 0 && x < a + r.sizes[a]);
                    } else if j < i {
                        assert(r.free[j] == h.free[j]);
                    } else {
                        assert(r.free[j - 1] == h.free[j]);
                    }
                }
            }
            assert(heap_wf(r));
        } else {
            assert(r.free == h.free.update(i, ((a + n) as usize, (size - n) as usize)));
            assert forall|x: int| r.top < x < WORDCOUNT implies in_live(r, x) || in_free(r, x) by {
                if in_live(h, x) {
                    let a0 = choose|a0: int|
                        0 <= a0 <= x && a0 < h.sizes.len() && #[trigger] h.sizes[a0] > 0 && x < a0
                            + h.sizes[a0];
                    assert(r.sizes[a0] > 0 && x < a0 + r.sizes[a0]);
                } else {
                    let j = choose|j: int|
                        0 <= j < h.free.len() && (#[trigger] h.free[j]).0 <= x < h.free[j].0
                            + h.free[j].1;
                    if j == i {
                        if x < a + n {
                            assert(r.sizes[a] > 0 && x < a + r.sizes[a]);
                        } else {
                            assert(r.free[i].0 <= x < r.free[i].0 + r.free[i].1);
                        }
                    } else {
                        assert(r.free[j] == h.free[j]);
                    }
                }
            }
            assert(heap_wf(r));
        }
    } else if h.top >= n && h.top + 1 - n > sp + 1 {
        let start = h.top + 1 - n;
        assert forall|x: int| r.top < x < WORDCOUNT implies in_live(r, x) || in_free(r, x) by {
            if x <= h.top {
                assert(r.sizes[start] > 0 && x < start + r.sizes[start]);
            } else if in_live(h, x) {
                let a0 = choose|a0: int|
                    0 <= a0 <= x && a0 < h.sizes.len() && #[trigger] h.sizes[a0] > 0 && x < a0
                        + h.sizes[a0];
                assert(r.sizes[a0] > 0 && x < a0 + r.sizes[a0]);
            } else {
                let j = choose|j: int|
                    0 <= j < h.free.len() && (#[trigger] h.free[j]).0 <= x < h.free[j].0
                        + h.free[j].1;
                assert(r.free[j] == h.free[j]);
            }
        }
        assert(heap_wf(r));
    } else {
    }
}

/// A live block starts at `a`, and `k` is where its range goes into the
/// free list: the ranges before `k` end at or below `a`, the others start
/// at or above the block's end.
spec fn freed_at(h: HeapView, a: int, k: int) -> bool {
    &&& 0 <= a < WORDCOUNT
    &&& h.sizes[a] > 0
    &&& 0 <= k <= h.free.len()
    &&& forall|j: int| 0 <= j < k ==> (#[trigger] h.free[j]).0 + h.free[j].1 <= a
    &&& forall|j: int| k <= j < h.free.len() ==> a + h.sizes[a] <= (#[trigger] h.free[j]).0
}

proof fn lemma_live_after_free(h: HeapView, a: int, sizes: Seq<usize>)
    requires
        heap_wf(h),
        0 <= a < WORDCOUNT,
        h.sizes[a] > 0,
        sizes == h.sizes.update(a, 0usize),
    ensures
        forall|b: int|
            0 <= b < WORDCOUNT && #[trigger] sizes[b] > 0 ==> b != a && h.sizes[b] == sizes[b] && (b
                + h.sizes[b] <= a || a + h.sizes[a] <= b),
{
    assert forall|b: int| 0 <= b < WORDCOUNT && #[trigger] sizes[b] > 0 implies b != a
        && h.sizes[b] == sizes[b] && (b + h.sizes[b] <= a || a + h.sizes[a] <= b) by {
        if b < a {
            assert(h.sizes[b] > 0 && h.sizes[a] > 0);
        } else if b > a {
            assert(h.sizes[a] > 0 && h.sizes[b] > 0);
        }
    }
}

proof fn lemma_freed_at(h: HeapView, a: int)
    requires
        heap_wf(h),
        0 <= a < WORDCOUNT,
        h.sizes[a] > 0,
    ensures
        freed_at(h, a, insert_pos(h.free, a, 0)),
{
    let f = h.free;
    let k = insert_pos(f, a, 0);
    lemma_insert_pos(f, a, 0);
    assert forall|j: int| 0 <= j < k implies (#[trigger] f[j]).0 + f[j].1 <= a by {
        assert(a + h.sizes[a] <= f[j].0 || f[j].0 + f[j].1 <= a);
    }
    assert forall|j: int| k <= j < f.len() implies a + h.sizes[a] <= (#[trigger] f[j]).0 by {
        assert(a + h.sizes[a] <= f[j].0 || f[j].0 + f[j].1 <= a);
        assert(f[k].0 >= a);
        if j > k {
            assert(f[k].0 + f[k].1 < f[j].0);
        }
    }
}

proof fn lemma_free_joins_both(h: HeapView, a: int, k: int, r: HeapView)
    requires
        heap_wf(h),
        freed_at(h, a, k),
        k > 0 && k < h.free.len() && h.free[k - 1].0 + h.free[k - 1].1 == a && a + h.sizes[a] == h.free[k].0,
        r == (HeapView { top: h.top, free: h.free.update(
            k - 1,
            (h.free[k - 1].0, (h.free[k - 1].1 + h.sizes[a] + h.free[k].1) as usize),
        ).remove(k), sizes: h.sizes.update(a, 0usize) }),
    ensures
        heap_wf(r),
{
    let f = h.free;
    let size = h.sizes[a] as int;
    lemma_live_after_free(h, a, r.sizes);
    let merged = (f[k - 1].0, (f[k - 1].1 + size + f[k].1) as usize);
    assert forall|j: int| 0 <= j < r.free.len() implies #[trigger] r.free[j] == (if j == k - 1 {
        merged
    } else if j < k {
        f[j]
    } else {
        f[j + 1]
    }) by {}
    assert forall|x: int| r.top < x < WORDCOUNT implies in_live(r, x) || in_free(r, x) by {
        if a <= x < a + size {
            assert(r.free[k - 1].0 <= x < r.free[k - 1].0 + r.free[k - 1].1);
        } else if in_live(h, x) {
            let a0 = choose|a0: int|
                0 <= a0 <= x && a0 < h.sizes.len() && #[trigger] h.sizes[a0] > 0 && x < a0
                    + h.sizes[a0];
            assert(r.sizes[a0] > 0 && x < a0 + r.sizes[a0]);

        } else {
            let j = choose|j: int|
                0 <= j < f.len() && (#[trigger] f[j]).0 <= x < f[j].0 + f[j].1;

            if j == k - 1 || j == k {
                assert(r.free[k - 1].0 <= x < r.free[k - 1].0 + r.free[k - 1].1);
            } else if j < k {
                assert(r.free[j] == f[j]);
            } else {
                assert(r.free[j - 1] == f[j]);
            }
        }
    }
}

proof fn lemma_free_joins_prev(h: HeapView, a: int, k: int, r: HeapView)
    requires
        heap_wf(h),
        freed_at(h, a, k),
        k > 0 && h.free[k - 1].0 + h.free[k - 1].1 == a && !(k < h.free.len() && a + h.sizes[a] == h.free[k].0),
        r == (HeapView { top: h.top, free: h.free.update(k - 1, (h.free[k - 1].0, (h.free[k - 1].1 + h.sizes[a]) as usize)), sizes: h.sizes.update(a, 0usize) }),
    ensures
        heap_wf(r),
{
    let f = h.free;
    let size = h.sizes[a] as int;
    lemma_live_after_free(h, a, r.sizes);

    assert forall|x: int| r.top < x < WORDCOUNT implies in_live(r, x) || in_free(r, x) by {
        if a <= x < a + size {
            assert(r.free[k - 1].0 <= x < r.free[k - 1].0 + r.free[k - 1].1);
        } else if in_live(h, x) {
            let a0 = choose|a0: int|
                0 <= a0 <= x && a0 < h.sizes.len() && #[trigger] h.sizes[a0] > 0 && x < a0
                    + h.sizes[a0];
            assert(r.sizes[a0] > 0 && x < a0 + r.sizes[a0]);

        } else {
            let j = choose|j: int|
                0 <= j < f.len() && (#[trigger] f[j]).0 <= x < f[j].0 + f[j].1;

            if j == k - 1 {
                assert(r.free[k - 1].0 <= x < r.free[k - 1].0 + r.free[k - 1].1);
            } else {
                assert(r.free[j] == f[j]);
            }
        }
    }
}

proof fn lemma_free_joins_next(h: HeapView, a: int, k: int, r: HeapView)
    requires
        heap_wf(h),
        freed_at(h, a, k),
        !(k > 0 && h.free[k - 1].0 + h.free[k - 1].1 == a) && k < h.free.len() && a + h.sizes[a] == h.free[k].0,
        r == (HeapView { top: h.top, free: h.free.update(k, (a as usize, (h.sizes[a] + h.free[k].1) as usize)), sizes: h.sizes.update(a, 0usize) }),
    ensures
        heap_wf(r),
{
    let f = h.free;
    let size = h.sizes[a] as int;
    lemma_live_after_free(h, a, r.sizes);

    assert forall|x: int| r.top < x < WORDCOUNT implies in_live(r, x) || in_free(r, x) by {
        if a <= x < a + size {
            assert(r.free[k].0 <= x < r.free[k].0 + r.free[k].1);
        } else if in_live(h, x) {
            let a0 = choose|a0: int|
                0 <= a0 <= x && a0 < h.sizes.len() && #[trigger] h.sizes[a0] > 0 && x < a0
                    + h.sizes[a0];
            assert(r.sizes[a0] > 0 && x < a0 + r.sizes[a0]);

        } else {
            let j = choose|j: int|
                0 <= j < f.len() && (#[trigger] f[j]).0 <= x < f[j].0 + f[j].1;

            if j == k {
                assert(r.free[k].0 <= x < r.free[k].0 + r.free[k].1);
            } else {
                assert(r.free[j] == f[j]);
            }
        }
    }
}

proof fn lemma_free_joins_none(h: HeapView, a: int, k: int, r: HeapView)
    requires
        heap_wf(h),
        freed_at(h, a, k),
        !(k > 0 && h.free[k - 1].0 + h.free[k - 1].1 == a) && !(k < h.free.len() && a + h.sizes[a] == h.free[k].0),
        r == (HeapView { top: h.top, free: h.free.insert(k, (a as usize, h.sizes[a])), sizes: h.sizes.update(a, 0usize) }),
    ensures
        heap_wf(r),
{
    let f = h.free;
    let size = h.sizes[a] as int;
    lemma_live_after_free(h, a, r.sizes);
    let fresh = (a as usize, h.sizes[a]);
    assert forall|j: int| 0 <= j < r.free.len() implies #[trigger] r.free[j] == (if j == k {
        fresh
    } else if j < k {
        f[j]
    } else {
        f[j - 1]
    }) by {}
    assert forall|x: int| r.top < x < WORDCOUNT implies in_live(r, x) || in_free(r, x) by {
        if a <= x < a + size {
            assert(r.free[k].0 <= x < r.free[k].0 + r.free[k].1);
        } else if in_live(h, x) {
            let a0 = choose|a0: int|
                0 <= a0 <= x && a0 < h.sizes.len() && #[trigger] h.sizes[a0] > 0 && x < a0
                    + h.sizes[a0];
            assert(r.sizes[a0] > 0 && x < a0 + r.sizes[a0]);

        } else {
            let j = choose|j: int|
                0 <= j < f.len() && (#[trigger] f[j]).0 <= x < f[j].0 + f[j].1;

            if j < k {
                assert(r.free[j] == f[j]);
            } else {
                assert(r.free[j + 1] == f[j]);
            }
        }
    }
}

/// A sound heap stays sound when a block is given back.
pub proof fn lemma_freevec_keeps_wf(h: HeapView, a: int)
    requires
        heap_wf(h),
    ensures
        heap_wf(freevec_spec(h, a).0),
{
    if 0 <= a < h.sizes.len() && h.sizes[a] > 0 {
        let k = insert_pos(h.free, a, 0);
        let r = freevec_spec(h, a).0;
        lemma_freed_at(h, a);
        let joins_prev = k > 0 && h.free[k - 1].0 + h.free[k - 1].1 == a;
        let joins_next = k < h.free.len() && a + h.sizes[a] == h.free[k].0;
        if joins_prev && joins_next {
            lemma_free_joins_both(h, a, k, r);
        } else if joins_prev {
            lemma_free_joins_prev(h, a, k, r);
        } else if joins_next {
            lemma_free_joins_next(h, a, k, r);
        } else {
            lemma_free_joins_none(h, a, k, r);
        }
    }
}

/// A request to the allocator.
pub enum HeapOp {
    /// A block of this many words is asked for, with this stack pointer.
    Get(int, int),
    /// The block at this address is given back.
    Free(int),
}

/// The books after a sequence of requests.
pub open spec fn after_ops(h: HeapView, ops: Seq<HeapOp>) -> HeapView
    decreases ops.len(),
{
    if ops.len() == 0 {
        h
    } else {
        let before = after_ops(h, ops.drop_last());
        match ops.last() {
            HeapOp::Get(n, sp) => getvec_spec(before, n, sp).0,
            HeapOp::Free(a) => freevec_spec(before, a).0,
        }
    }
}

/// Whatever blocks are asked for and given back, in whatever order, live
/// blocks and free ranges go on to divide the words above `top` between
/// them, and no two free ranges touch.
pub proof fn lemma_heap_stays_sound(h: HeapView, ops: Seq<HeapOp>)
    requires
        heap_wf(h),
        forall|i: int| 0 <= i < ops.len() ==> (#[trigger] ops[i] matches HeapOp::Get(_, sp) ==> sp >= 0),
    ensures
        heap_wf(after_ops(h, ops)),
    decreases ops.len(),
{
    if ops.len() > 0 {
        let head = ops.drop_last();
        assert forall|i: int| 0 <= i < head.len() implies (#[trigger] head[i] matches HeapOp::Get(
            _,
            sp,
        ) ==> sp >= 0) by {
            assert(head[i] == ops[i]);
        }
        lemma_heap_stays_sound(h, head);
        let before = after_ops(h, head);
        assert(ops[ops.len() - 1] == ops.last());
        match ops.last() {
            HeapOp::Get(n, sp) => {
                lemma_getvec_keeps_wf(before, n, sp);
            },
            HeapOp::Free(a) => {
                lemma_freevec_keeps_wf(before, a);
            },
        }
    }
}

impl Heap {
    /// An empty heap: nothing carved, nothing free.
    pub fn new() -> (h: Heap)
        ensures
            heap_wf(h@),
            h@.top == WORDCOUNT - 1,
            h@.free.len() == 0,
            forall|a: int| 0 <= a < WORDCOUNT ==> h@.sizes[a] == 0,
    {
        let mut sizes: Vec<usize> = Vec::new();
        let mut i: usize = 0;
        while i < WORDCOUNT
            invariant
                0 <= i <= WORDCOUNT,
                sizes@.len() == i,
                forall|a: int| 0 <= a < i ==> sizes@[a] == 0,
            decreases WORDCOUNT - i,
        {
            sizes.push(0);
            i += 1;
        }
        Heap { heap_top: WORDCOUNT - 1, free_list: Vec::new(), alloc_sizes: sizes }
    }

    /// Hands out a block of `words` words, or 0 where none can be had.
    pub fn getvec(&mut self, words: usize, sp: u16) -> (r: usize)
        requires
            heap_wf(old(self)@),
        ensures
            (final(self)@, r as int) == getvec_spec(old(self)@, words as int, sp as int),
            heap_wf(final(self)@),
            r < WORDCOUNT,
            r != 0 ==> r + words <= WORDCOUNT,
    {
        proof {
            lemma_getvec_keeps_wf(self@, words as int, sp as int);
        }
        if words == 0 || words >= WORDCOUNT {
            return 0;
        }
        let mut i: usize = 0;
        while i < self.free_list.len() && self.free_list[i].1 < words
            invariant
                0 <= i <= self.free_list.len(),
                *self == *old(self),
                first_fit(self.free_list@, words as int, i as int) == first_fit(
                    self.free_list@,
                    words as int,
                    0,
                ),
            decreases self.free_list.len() - i,
        {
            i += 1;
        }
        if i < self.free_list.len() {
            let addr: usize = self.free_list[i].0;
            let size: usize = self.free_list[i].1;
            if size == words {
                self.free_list.remove(i);
            } else {
                self.free_list[i] = (addr + words, size - words);
            }
            self.alloc_sizes[addr] = words;
            return addr;
        }
        if self.heap_top < words {
            return 0;
        }
        let start: usize = self.heap_top + 1 - words;
        if start <= sp as usize + 1 {
            return 0;
        }
        self.heap_top = start - 1;
        self.alloc_sizes[start] = words;
        start
    }

    /// Gives back the block that starts at `addr`; 0 where no live block
    /// starts there, else 1.
    pub fn freevec(&mut self, addr: usize) -> (r: i16)
        requires
            heap_wf(old(self)@),
        ensures
            (final(self)@, r as int) == freevec_spec(old(self)@, addr as int),
            heap_wf(final(self)@),
    {
        proof {
            lemma_freevec_keeps_wf(self@, addr as int);
        }
        if addr >= self.alloc_sizes.len() {
            return 0;
        }
        let size: usize = self.alloc_sizes[addr];
        if size == 0 {
            return 0;
        }
        self.alloc_sizes[addr] = 0;
        let mut k: usize = 0;
        while k < self.free_list.len() && self.free_list[k].0 < addr
            invariant
                0 <= k <= self.free_list.len(),
                self.free_list == old(self).free_list,
                self.heap_top == old(self).heap_top,
                self.alloc_sizes@ == old(self).alloc_sizes@.update(addr as int, 0usize),
                insert_pos(self.free_list@, addr as int, k as int) == insert_pos(
                    self.free_list@,
                    addr as int,
                    0,
                ),
            decreases self.free_list.len() - k,
        {
            k += 1;
        }
        let n: usize = self.free_list.len();
        let joins_prev: bool = k > 0 && self.free_list[k - 1].0 + self.free_list[k - 1].1 == addr;
        let joins_next: bool = k < n && addr + size == self.free_list[k].0;
        if joins_prev && joins_next {
            let prev: (usize, usize) = self.free_list[k - 1];
            let next: (usize, usize) = self.free_list[k];
            self.free_list[k - 1] = (prev.0, prev.1 + size + next.1);
            self.free_list.remove(k);
        } else if joins_prev {
            let prev: (usize, usize) = self.free_list[k - 1];
            self.free_list[k - 1] = (prev.0, prev.1 + size);
        } else if joins_next {
            let next: (usize, usize) = self.free_list[k];
            self.free_list[k] = (addr, size + next.1);
        } else {
            self.free_list.insert(k, (addr, size));
        }
        1
    }
}


} // verus!
