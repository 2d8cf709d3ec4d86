//! Row-major hyperslab reads over a flat array.
//!
//! A variable's values live in one flat byte buffer, row-major, with a
//! fixed element width. A slab `(start, count)` selects a box of
//! elements; its content is defined here by the sequence of flat element
//! indices the row-major traversal visits. The chunked streamer walks
//! the same slab in budget-sized runs of trailing rows and is proved to
//! emit exactly the slab's bytes, whatever the budget.

use vstd::prelude::*;

use crate::DapError;

verus! {

/// The product of a list of extents.
pub open spec fn prod(dims: Seq<usize>) -> int
    decreases dims.len(),
{
    if dims.len() == 0 {
        1
    } else {
        dims[0] * prod(dims.subrange(1, dims.len() as int))
    }
}

/// Every index sequence element moved `k` places.
pub open spec fn shift(s: Seq<int>, k: int) -> Seq<int> {
    s.map_values(|x: int| x + k)
}

/// The flat element indices of the rows `from..to`, each row being the
/// slab of the remaining dimensions at stride `stride`.
pub open spec fn rows_span(
    dims1: Seq<usize>,
    start1: Seq<usize>,
    count1: Seq<usize>,
    stride: int,
    from: int,
    to: int,
) -> Seq<int>
    decreases dims1.len(), to - from + 1,
{
    if from >= to {
        Seq::empty()
    } else {
        shift(slab_indices(dims1, start1, count1), from * stride) + rows_span(
            dims1,
            start1,
            count1,
            stride,
            from + 1,
            to,
        )
    }
}

/// The flat element indices a row-major traversal of the slab visits.
pub open spec fn slab_indices(dims: Seq<usize>, start: Seq<usize>, count: Seq<usize>) -> Seq<int>
    decreases dims.len(), 0int,
{
    if dims.len() == 0 {
        seq![0]
    } else {
        rows_span(
            dims.subrange(1, dims.len() as int),
            start.subrange(1, start.len() as int),
            count.subrange(1, count.len() as int),
            prod(dims.subrange(1, dims.len() as int)),
            start[0] as int,
            start[0] + count[0],
        )
    }
}

/// The bytes of the elements at the given flat indices, in order.
pub open spec fn gather(data: Seq<u8>, w: int, idxs: Seq<int>) -> Seq<u8>
    decreases idxs.len(),
{
    if idxs.len() == 0 {
        Seq::empty()
    } else {
        gather(data, w, idxs.drop_last()) + data.subrange(
            idxs.last() * w,
            idxs.last() * w + w,
        )
    }
}

/// The bytes a slab read returns.
pub open spec fn slab_bytes(
    data: Seq<u8>,
    w: int,
    dims: Seq<usize>,
    start: Seq<usize>,
    count: Seq<usize>,
) -> Seq<u8> {
    gather(data, w, slab_indices(dims, start, count))
}

/// A well-formed slab selection over `dims`.
pub open spec fn slab_wf(dims: Seq<usize>, start: Seq<usize>, count: Seq<usize>) -> bool {
    &&& start.len() == dims.len()
    &&& count.len() == dims.len()
    &&& forall|i: int| 0 <= i < dims.len() ==> (#[trigger] dims[i]) >= 1
    &&& forall|i: int|
        0 <= i < dims.len() ==> 1 <= (#[trigger] count[i]) && start[i] + count[i] <= dims[i]
}

pub proof fn lemma_prod_pos(dims: Seq<usize>)
    requires
        forall|i: int| 0 <= i < dims.len() ==> (#[trigger] dims[i]) >= 1,
    ensures
        prod(dims) >= 1,
    decreases dims.len(),
{
    if dims.len() > 0 {
        lemma_prod_pos(dims.subrange(1, dims.len() as int));
        assert(prod(dims) == dims[0] * prod(dims.subrange(1, dims.len() as int)));
        assert(dims[0] >= 1);
        vstd::arithmetic::mul::lemma_mul_inequality(
            1,
            dims[0] as int,
            prod(dims.subrange(1, dims.len() as int)),
        );
    }
}

/// Componentwise smaller extents give a product at most as large.
pub proof fn lemma_prod_le(a: Seq<usize>, b: Seq<usize>)
    requires
        a.len() == b.len(),
        forall|i: int| 0 <= i < a.len() ==> 1 <= (#[trigger] a[i]) && a[i] <= b[i],
    ensures
        1 <= prod(a) <= prod(b),
    decreases a.len(),
{
    lemma_prod_pos(a);
    if a.len() > 0 {
        let a1 = a.subrange(1, a.len() as int);
        let b1 = b.subrange(1, b.len() as int);
        lemma_prod_le(a1, b1);
        vstd::arithmetic::mul::lemma_mul_upper_bound(a[0] as int, b[0] as int, prod(a1), prod(b1));
    }
}

pub proof fn lemma_rows_span_len(
    dims1: Seq<usize>,
    start1: Seq<usize>,
    count1: Seq<usize>,
    stride: int,
    from: int,
    to: int,
)
    ensures
        rows_span(dims1, start1, count1, stride, from, to).len() == if from >= to {
            0
        } else {
            (to - from) * slab_indices(dims1, start1, count1).len()
        },
    decreases to - from,
{
    if from < to {
        lemma_rows_span_len(dims1, start1, count1, stride, from + 1, to);
        let l = slab_indices(dims1, start1, count1).len() as int;
        let r = rows_span(dims1, start1, count1, stride, from, to);
        assert(r == shift(slab_indices(dims1, start1, count1), from * stride) + rows_span(
            dims1,
            start1,
            count1,
            stride,
            from + 1,
            to,
        ));
        assert(shift(slab_indices(dims1, start1, count1), from * stride).len() == l);
        if from + 1 >= to {
            assert(r.len() == l);
            assert((to - from) * l == l) by (nonlinear_arith)
                requires to - from == 1,
            {}
        } else {
            assert(r.len() == l + (to - from - 1) * l);
            assert((to - from) * l == l + (to - from - 1) * l) by (nonlinear_arith);
        }
    }
}

/// A slab visits exactly `prod(count)` elements.
pub proof fn lemma_slab_len(dims: Seq<usize>, start: Seq<usize>, count: Seq<usize>)
    requires
        start.len() == dims.len(),
        count.len() == dims.len(),
    ensures
        slab_indices(dims, start, count).len() == prod(count),
    decreases dims.len(),
{
    if dims.len() == 0 {
    } else {
        let dims1 = dims.subrange(1, dims.len() as int);
        let start1 = start.subrange(1, start.len() as int);
        let count1 = count.subrange(1, count.len() as int);
        lemma_slab_len(dims1, start1, count1);
        lemma_rows_span_len(
            dims1,
            start1,
            count1,
            prod(dims1),
            start[0] as int,
            start[0] + count[0],
        );
        assert(prod(count) == count[0] * prod(count1));
        if count[0] == 0 {
            assert(count[0] as int == 0 ==> count[0] * prod(count1) == 0) by (nonlinear_arith);
        }
    }
}

/// A span of rows splits at any middle row.
pub proof fn lemma_rows_span_split(
    dims1: Seq<usize>,
    start1: Seq<usize>,
    count1: Seq<usize>,
    stride: int,
    from: int,
    mid: int,
    to: int,
)
    requires
        from <= mid <= to,
    ensures
        rows_span(dims1, start1, count1, stride, from, to) == rows_span(
            dims1,
            start1,
            count1,
            stride,
            from,
            mid,
        ) + rows_span(dims1, start1, count1, stride, mid, to),
    decreases mid - from,
{
    if from >= mid {
        assert(rows_span(dims1, start1, count1, stride, from, mid) =~= Seq::empty());
        assert(rows_span(dims1, start1, count1, stride, from, mid) + rows_span(
            dims1,
            start1,
            count1,
            stride,
            mid,
            to,
        ) =~= rows_span(dims1, start1, count1, stride, mid, to));
    } else {
        lemma_rows_span_split(dims1, start1, count1, stride, from + 1, mid, to);
        assert(rows_span(dims1, start1, count1, stride, from, mid) + rows_span(
            dims1,
            start1,
            count1,
            stride,
            mid,
            to,
        ) =~= shift(slab_indices(dims1, start1, count1), from * stride) + (rows_span(
            dims1,
            start1,
            count1,
            stride,
            from + 1,
            mid,
        ) + rows_span(dims1, start1, count1, stride, mid, to)));
    }
}

/// Moving a whole span of rows by `k` rows shifts every index.
pub proof fn lemma_rows_span_shift(
    dims1: Seq<usize>,
    start1: Seq<usize>,
    count1: Seq<usize>,
    stride: int,
    from: int,
    to: int,
    k: int,
)
    ensures
        shift(rows_span(dims1, start1, count1, stride, from, to), k * stride) == rows_span(
            dims1,
            start1,
            count1,
            stride,
            from + k,
            to + k,
        ),
    decreases to - from,
{
    let lhs = shift(rows_span(dims1, start1, count1, stride, from, to), k * stride);
    let rhs = rows_span(dims1, start1, count1, stride, from + k, to + k);
    if from >= to {
        assert(lhs =~= rhs);
    } else {
        lemma_rows_span_shift(dims1, start1, count1, stride, from + 1, to, k);
        let inner = slab_indices(dims1, start1, count1);
        assert((from + k) * stride == from * stride + k * stride) by (nonlinear_arith);
        assert(shift(shift(inner, from * stride), k * stride) =~= shift(
            inner,
            (from + k) * stride,
        ));
        assert(lhs =~= shift(shift(inner, from * stride), k * stride) + shift(
            rows_span(dims1, start1, count1, stride, from + 1, to),
            k * stride,
        ));
    }
}

/// Gathering a concatenation gathers each part.
pub proof fn lemma_gather_concat(data: Seq<u8>, w: int, a: Seq<int>, b: Seq<int>)
    ensures
        gather(data, w, a + b) == gather(data, w, a) + gather(data, w, b),
    decreases b.len(),
{
    if b.len() == 0 {
        assert(a + b =~= a);
        assert(gather(data, w, a) + gather(data, w, b) =~= gather(data, w, a));
    } else {
        lemma_gather_concat(data, w, a, b.drop_last());
        assert((a + b).drop_last() =~= a + b.drop_last());
        assert((a + b).last() == b.last());
        assert(gather(data, w, a) + gather(data, w, b.drop_last()) + data.subrange(
            b.last() * w,
            b.last() * w + w,
        ) =~= gather(data, w, a) + gather(data, w, b));
    }
}

/// The linear position of a multi-index in the row-major order of a
/// `count`-shaped box.
pub open spec fn flat_idx(count: Seq<usize>, off: Seq<usize>) -> int
    decreases count.len(),
{
    if count.len() == 0 {
        0
    } else {
        off[0] * prod(count.subrange(1, count.len() as int)) + flat_idx(
            count.subrange(1, count.len() as int),
            off.subrange(1, off.len() as int),
        )
    }
}

/// Componentwise sum of a slab origin and a relative offset.
pub open spec fn addv(a: Seq<usize>, b: Seq<usize>) -> Seq<usize> {
    Seq::new(a.len(), |i: int| (a[i] + b[i]) as usize)
}

/// All-zero offsets.
pub open spec fn zeros(n: int) -> Seq<usize> {
    Seq::new(n as nat, |i: int| 0usize)
}

/// The shape a chunk of the budgeted walk has: some leading axes step one
/// at a time, one pivot axis takes a run of rows, and every axis below
/// the pivot is taken whole from offset zero.
pub open spec fn chunk_shape(count: Seq<usize>, off: Seq<usize>, mj: Seq<usize>) -> bool
    decreases count.len(),
{
    if count.len() == 0 {
        true
    } else {
        ||| (mj[0] == 1 && off[0] < count[0] && chunk_shape(
            count.subrange(1, count.len() as int),
            off.subrange(1, off.len() as int),
            mj.subrange(1, mj.len() as int),
        ))
        ||| (1 <= mj[0] && off[0] + mj[0] <= count[0] && (forall|d: int|
            1 <= d < count.len() ==> (#[trigger] off[d]) == 0) && (forall|d: int|
            1 <= d < count.len() ==> (#[trigger] mj[d]) == count[d]))
    }
}

/// A chunk stays inside its box, axis by axis.
pub proof fn lemma_shape_bounds(count: Seq<usize>, off: Seq<usize>, mj: Seq<usize>)
    requires
        off.len() == count.len(),
        mj.len() == count.len(),
        forall|i: int| 0 <= i < count.len() ==> (#[trigger] count[i]) >= 1,
        chunk_shape(count, off, mj),
    ensures
        forall|i: int|
            0 <= i < count.len() ==> 1 <= (#[trigger] mj[i]) && off[i] + mj[i] <= count[i],
    decreases count.len(),
{
    if count.len() > 0 {
        let c1 = count.subrange(1, count.len() as int);
        let o1 = off.subrange(1, off.len() as int);
        let m1 = mj.subrange(1, mj.len() as int);
        if mj[0] == 1 && off[0] < count[0] && chunk_shape(c1, o1, m1) {
            lemma_shape_bounds(c1, o1, m1);
            assert forall|i: int|
                0 <= i < count.len() implies 1 <= (#[trigger] mj[i]) && off[i] + mj[i]
                <= count[i] by {
                if i > 0 {
                    assert(1 <= m1[i - 1] && o1[i - 1] + m1[i - 1] <= c1[i - 1]);
                }
            }
        } else {
            assert forall|i: int|
                0 <= i < count.len() implies 1 <= (#[trigger] mj[i]) && off[i] + mj[i]
                <= count[i] by {
                if i > 0 {
                    assert(off[i] == 0 && mj[i] == count[i]);
                }
            }
        }
    }
}

/// An all-zero offset sits at linear position zero.
pub proof fn lemma_flat_zeros(count: Seq<usize>, off: Seq<usize>)
    requires
        off.len() == count.len(),
        forall|i: int| 0 <= i < off.len() ==> (#[trigger] off[i]) == 0,
    ensures
        flat_idx(count, off) == 0,
    decreases count.len(),
{
    if count.len() > 0 {
        lemma_flat_zeros(
            count.subrange(1, count.len() as int),
            off.subrange(1, off.len() as int),
        );
    }
}

/// A chunk's linear segment lies inside the slab.
pub proof fn lemma_shape_flat_bound(count: Seq<usize>, off: Seq<usize>, mj: Seq<usize>)
    requires
        off.len() == count.len(),
        mj.len() == count.len(),
        forall|i: int| 0 <= i < count.len() ==> (#[trigger] count[i]) >= 1,
        chunk_shape(count, off, mj),
    ensures
        0 <= flat_idx(count, off),
        flat_idx(count, off) + prod(mj) <= prod(count),
    decreases count.len(),
{
    if count.len() == 0 {
    } else {
        let c1 = count.subrange(1, count.len() as int);
        let o1 = off.subrange(1, off.len() as int);
        let m1 = mj.subrange(1, mj.len() as int);
        let p1 = prod(c1);
        lemma_prod_pos(c1);
        if mj[0] == 1 && off[0] < count[0] && chunk_shape(c1, o1, m1) {
            lemma_shape_flat_bound(c1, o1, m1);
            assert(prod(mj) == 1 * prod(m1));
            assert(1 * prod(m1) == prod(m1)) by (nonlinear_arith);
            assert(flat_idx(count, off) == off[0] * p1 + flat_idx(c1, o1));
            vstd::arithmetic::mul::lemma_mul_nonnegative(off[0] as int, p1);
            assert(off[0] * p1 + p1 == (off[0] + 1) * p1) by (nonlinear_arith);
            vstd::arithmetic::mul::lemma_mul_inequality(off[0] + 1, count[0] as int, p1);
            assert(prod(count) == count[0] * p1);
        } else {
            assert(m1 =~= c1);
            lemma_flat_zeros(c1, o1);
            assert(flat_idx(count, off) == off[0] * p1);
            vstd::arithmetic::mul::lemma_mul_nonnegative(off[0] as int, p1);
            assert(prod(mj) == mj[0] * p1);
            assert(off[0] * p1 + mj[0] * p1 == (off[0] + mj[0]) * p1) by (nonlinear_arith);
            vstd::arithmetic::mul::lemma_mul_inequality(off[0] + mj[0], count[0] as int, p1);
            assert(prod(count) == count[0] * p1);
        }
    }
}

/// The indices a chunk of the walk visits are exactly one contiguous
/// segment of the whole slab's row-major index sequence.
#[verifier::rlimit(100)]
#[verifier::spinoff_prover]
pub proof fn lemma_chunk_is_segment(
    dims: Seq<usize>,
    start: Seq<usize>,
    count: Seq<usize>,
    off: Seq<usize>,
    mj: Seq<usize>,
)
    requires
        slab_wf(dims, start, count),
        off.len() == dims.len(),
        mj.len() == dims.len(),
        chunk_shape(count, off, mj),
    ensures
        slab_indices(dims, addv(start, off), mj) == slab_indices(dims, start, count).subrange(
            flat_idx(count, off),
            flat_idx(count, off) + prod(mj),
        ),
    decreases dims.len(),
{
    lemma_shape_bounds(count, off, mj);
    lemma_shape_flat_bound(count, off, mj);
    if dims.len() == 0 {
        assert(slab_indices(dims, start, count).subrange(0, 1) =~= slab_indices(
            dims,
            addv(start, off),
            mj,
        ));
    } else {
        let dims1 = dims.subrange(1, dims.len() as int);
        let start1 = start.subrange(1, start.len() as int);
        let count1 = count.subrange(1, count.len() as int);
        let o1 = off.subrange(1, off.len() as int);
        let m1 = mj.subrange(1, mj.len() as int);
        let pd = prod(dims1);
        let pc = prod(count1);
        let s0 = start[0] as int;
        let c0 = count[0] as int;
        let o0 = off[0] as int;
        let m0 = mj[0] as int;
        let a = addv(start, off);
        let a1 = a.subrange(1, a.len() as int);
        assert(a1 =~= addv(start1, o1));
        assert(a[0] == s0 + o0);
        let inner = slab_indices(dims1, start1, count1);
        lemma_slab_len(dims1, start1, count1);
        lemma_slab_len(dims, start, count);
        lemma_prod_pos(count1);
        let whole = slab_indices(dims, start, count);
        assert(whole == rows_span(dims1, start1, count1, pd, s0, s0 + c0));
        assert(whole.len() == prod(count));
        assert(prod(count) == c0 * pc);
        if mj[0] == 1 && off[0] < count[0] && chunk_shape(count1, o1, m1) {
            // One row at offset `o0`, with the chunk continuing inside it.
            lemma_chunk_is_segment(dims1, start1, count1, o1, m1);
            lemma_shape_flat_bound(count1, o1, m1);
            assert forall|k: int| 0 <= k < m1.len() implies (#[trigger] m1[k]) >= 1 by {
                assert(mj[k + 1] >= 1);
            }
            lemma_prod_pos(m1);
            let f1 = flat_idx(count1, o1);
            let pm1 = prod(m1);
            assert(slab_indices(dims, a, mj) == rows_span(dims1, a1, m1, pd, s0 + o0, s0 + o0 + 1));
            assert(rows_span(dims1, a1, m1, pd, s0 + o0 + 1, s0 + o0 + 1) =~= Seq::<int>::empty());
            assert(slab_indices(dims, a, mj) =~= shift(
                slab_indices(dims1, a1, m1),
                (s0 + o0) * pd,
            ));
            // Split the whole slab's rows around row `o0`.
            lemma_rows_span_split(dims1, start1, count1, pd, s0, s0 + o0, s0 + c0);
            lemma_rows_span_split(dims1, start1, count1, pd, s0 + o0, s0 + o0 + 1, s0 + c0);
            let pre = rows_span(dims1, start1, count1, pd, s0, s0 + o0);
            let blk = rows_span(dims1, start1, count1, pd, s0 + o0, s0 + o0 + 1);
            let post = rows_span(dims1, start1, count1, pd, s0 + o0 + 1, s0 + c0);
            lemma_rows_span_len(dims1, start1, count1, pd, s0, s0 + o0);
            assert(blk =~= shift(inner, (s0 + o0) * pd));
            assert(whole =~= pre + blk + post);
            assert(pre.len() == o0 * pc) by {
                if o0 == 0 {
                    assert(0 * pc == 0) by (nonlinear_arith);
                }
            }
            assert(blk.len() == pc);
            assert(flat_idx(count, off) == o0 * pc + f1);
            assert(prod(mj) == 1 * pm1);
            assert(1 * pm1 == pm1) by (nonlinear_arith);
            assert(o0 * pc + pc == (o0 + 1) * pc) by (nonlinear_arith);
            vstd::arithmetic::mul::lemma_mul_inequality(o0 + 1, c0, pc);
            vstd::arithmetic::mul::lemma_mul_nonnegative(o0, pc);
            // The target segment lies inside the block for row `o0`.
            assert(whole.subrange(o0 * pc + f1, o0 * pc + f1 + pm1) =~= blk.subrange(
                f1,
                f1 + pm1,
            ));
            assert(blk.subrange(f1, f1 + pm1) =~= shift(
                inner.subrange(f1, f1 + pm1),
                (s0 + o0) * pd,
            ));
            assert(slab_indices(dims1, a1, m1) == inner.subrange(f1, f1 + pm1));
        } else {
            // Pivot here: rows `o0..o0+m0`, each inner row taken whole.
            assert(m1 =~= count1);
            assert forall|d: int| 0 <= d < o1.len() implies (#[trigger] o1[d]) == 0 by {
                assert(off[d + 1] == 0);
            }
            assert(a1 =~= start1);
            lemma_flat_zeros(count1, o1);
            assert(slab_indices(dims, a, mj) == rows_span(
                dims1,
                a1,
                m1,
                pd,
                s0 + o0,
                s0 + o0 + m0,
            ));
            lemma_rows_span_split(dims1, start1, count1, pd, s0, s0 + o0, s0 + c0);
            lemma_rows_span_split(dims1, start1, count1, pd, s0 + o0, s0 + o0 + m0, s0 + c0);
            let pre = rows_span(dims1, start1, count1, pd, s0, s0 + o0);
            let mid = rows_span(dims1, start1, count1, pd, s0 + o0, s0 + o0 + m0);
            let post = rows_span(dims1, start1, count1, pd, s0 + o0 + m0, s0 + c0);
            lemma_rows_span_len(dims1, start1, count1, pd, s0, s0 + o0);
            lemma_rows_span_len(dims1, start1, count1, pd, s0 + o0, s0 + o0 + m0);
            assert(whole =~= pre + mid + post);
            assert(pre.len() == o0 * pc) by {
                if o0 == 0 {
                    assert(0 * pc == 0) by (nonlinear_arith);
                }
            }
            assert(mid.len() == m0 * pc);
            assert(flat_idx(count, off) == o0 * pc);
            assert(prod(mj) == m0 * pc);
            assert(whole.subrange(o0 * pc, o0 * pc + m0 * pc) =~= mid);
        }
    }
}

/// Every visited index lies inside the array.
pub proof fn lemma_slab_indices_bounds(dims: Seq<usize>, start: Seq<usize>, count: Seq<usize>)
    requires
        slab_wf(dims, start, count),
    ensures
        forall|j: int|
            0 <= j < slab_indices(dims, start, count).len() ==> 0 <= #[trigger] slab_indices(
                dims,
                start,
                count,
            )[j] && slab_indices(dims, start, count)[j] < prod(dims),
    decreases dims.len(),
{
    let s = slab_indices(dims, start, count);
    if dims.len() == 0 {
    } else {
        let dims1 = dims.subrange(1, dims.len() as int);
        let start1 = start.subrange(1, start.len() as int);
        let count1 = count.subrange(1, count.len() as int);
        let pd = prod(dims1);
        lemma_slab_indices_bounds(dims1, start1, count1);
        lemma_prod_pos(dims1);
        assert(prod(dims) == dims[0] * prod(dims1));
        lemma_rows_bounds(
            dims1,
            start1,
            count1,
            pd,
            start[0] as int,
            start[0] + count[0],
            dims[0] as int,
        );
        let r = rows_span(dims1, start1, count1, pd, start[0] as int, start[0] + count[0]);
        assert forall|j: int| 0 <= j < s.len() implies 0 <= #[trigger] s[j] && s[j]
            < prod(dims) by {
            assert(s[j] == r[j]);
        }
    }
}

/// Rows between `from` and `to` stay below row bound `d0`.
proof fn lemma_rows_bounds(
    dims1: Seq<usize>,
    start1: Seq<usize>,
    count1: Seq<usize>,
    stride: int,
    from: int,
    to: int,
    d0: int,
)
    requires
        stride == prod(dims1),
        stride >= 1,
        0 <= from,
        to <= d0,
        forall|j: int|
            0 <= j < slab_indices(dims1, start1, count1).len() ==> 0 <= #[trigger] slab_indices(
                dims1,
                start1,
                count1,
            )[j] && slab_indices(dims1, start1, count1)[j] < stride,
    ensures
        forall|j: int|
            0 <= j < rows_span(dims1, start1, count1, stride, from, to).len() ==> 0
                <= #[trigger] rows_span(dims1, start1, count1, stride, from, to)[j] && rows_span(
                dims1,
                start1,
                count1,
                stride,
                from,
                to,
            )[j] < d0 * stride,
    decreases to - from,
{
    if from < to {
        lemma_rows_bounds(dims1, start1, count1, stride, from + 1, to, d0);
        let inner = slab_indices(dims1, start1, count1);
        let blk = shift(inner, from * stride);
        let rest = rows_span(dims1, start1, count1, stride, from + 1, to);
        assert forall|j: int|
            0 <= j < rows_span(dims1, start1, count1, stride, from, to).len() implies 0
            <= #[trigger] rows_span(dims1, start1, count1, stride, from, to)[j] && rows_span(
            dims1,
            start1,
            count1,
            stride,
            from,
            to,
        )[j] < d0 * stride by {
            if j < blk.len() {
                assert(rows_span(dims1, start1, count1, stride, from, to)[j] == inner[j] + from
                    * stride);
                vstd::arithmetic::mul::lemma_mul_nonnegative(from, stride);
                assert(inner[j] + from * stride < (from + 1) * stride) by (nonlinear_arith)
                    requires inner[j] < stride {}
                vstd::arithmetic::mul::lemma_mul_inequality(from + 1, d0, stride);
            } else {
                assert(rows_span(dims1, start1, count1, stride, from, to)[j] == rest[j
                    - blk.len()]);
            }
        }
    }
}

/// Gathering shifted indices reads from the shifted window of the data.
pub proof fn lemma_gather_shift(data: Seq<u8>, w: int, idxs: Seq<int>, b: int, bound: int)
    requires
        w >= 1,
        b >= 0,
        bound >= 0,
        (b + bound) * w <= data.len(),
        forall|j: int| 0 <= j < idxs.len() ==> 0 <= #[trigger] idxs[j] && idxs[j] < bound,
    ensures
        gather(data, w, shift(idxs, b)) == gather(
            data.subrange(b * w, (b + bound) * w),
            w,
            idxs,
        ),
    decreases idxs.len(),
{
    let window = data.subrange(b * w, (b + bound) * w);
    if idxs.len() == 0 {
        assert(shift(idxs, b) =~= Seq::<int>::empty());
    } else {
        assert(shift(idxs, b).drop_last() =~= shift(idxs.drop_last(), b));
        lemma_gather_shift(data, w, idxs.drop_last(), b, bound);
        let l = idxs.last();
        assert(shift(idxs, b).last() == l + b);
        vstd::arithmetic::mul::lemma_mul_nonnegative(b, w);
        vstd::arithmetic::mul::lemma_mul_nonnegative(l, w);
        assert((l + b) * w == l * w + b * w) by (nonlinear_arith);
        assert((l + 1) * w == l * w + w) by (nonlinear_arith);
        vstd::arithmetic::mul::lemma_mul_inequality(l + 1, bound, w);
        assert((b + bound) * w == b * w + bound * w) by (nonlinear_arith);
        assert(data.subrange(l * w + b * w, l * w + b * w + w) =~= window.subrange(
            l * w,
            l * w + w,
        ));
    }
}

/// Reading the whole array as one slab returns the array itself.
pub proof fn lemma_full_gather(data: Seq<u8>, w: int, dims: Seq<usize>)
    requires
        w >= 1,
        data.len() == prod(dims) * w,
        forall|i: int| 0 <= i < dims.len() ==> (#[trigger] dims[i]) >= 1,
    ensures
        gather(data, w, slab_indices(dims, zeros(dims.len() as int), dims)) == data,
    decreases dims.len(), 1int, 0int,
{
    lemma_prod_pos(dims);
    let z = zeros(dims.len() as int);
    if dims.len() == 0 {
        assert(seq![0int].drop_last() =~= Seq::<int>::empty());
        assert(seq![0int].last() == 0);
        assert(gather(data, w, Seq::<int>::empty()) =~= Seq::<u8>::empty());
        assert(0 * w == 0) by (nonlinear_arith);
        assert(gather(data, w, seq![0int]) =~= data.subrange(0, w));
        assert(data.subrange(0, w) =~= data);
    } else {
        let dims1 = dims.subrange(1, dims.len() as int);
        let z1 = zeros(dims1.len() as int);
        let pd = prod(dims1);
        lemma_prod_pos(dims1);
        assert(z.subrange(1, z.len() as int) =~= z1);
        assert(slab_indices(dims, z, dims) == rows_span(dims1, z1, dims1, pd, 0, dims[0] as int));
        lemma_full_rows(data, w, dims, dims1, z1, pd, dims[0] as int);
        assert(data.subrange(0, dims[0] * pd * w) =~= data) by {
            assert(prod(dims) == dims[0] * pd);
            assert(dims[0] * pd * w == prod(dims) * w) by (nonlinear_arith)
                requires prod(dims) == dims[0] * pd {}
        }
    }
}

/// Gathering the first `to` full rows reads the array's prefix.
#[verifier::rlimit(80)]
#[verifier::spinoff_prover]
proof fn lemma_full_rows(
    data: Seq<u8>,
    w: int,
    dims: Seq<usize>,
    dims1: Seq<usize>,
    z1: Seq<usize>,
    pd: int,
    to: int,
)
    requires
        w >= 1,
        dims.len() >= 1,
        dims1 == dims.subrange(1, dims.len() as int),
        z1 == zeros(dims1.len() as int),
        pd == prod(dims1),
        pd >= 1,
        forall|i: int| 0 <= i < dims.len() ==> (#[trigger] dims[i]) >= 1,
        0 <= to <= dims[0],
        data.len() == prod(dims) * w,
    ensures
        gather(data, w, rows_span(dims1, z1, dims1, pd, 0, to)) == data.subrange(0, to * pd * w),
    decreases dims.len(), 0int, to,
{
    lemma_slab_len(dims1, z1, dims1);
    if to == 0 {
        assert(to * pd * w == 0) by (nonlinear_arith)
            requires to == 0,
        {}
        assert(gather(data, w, rows_span(dims1, z1, dims1, pd, 0, 0)) =~= data.subrange(0, 0));
    } else {
        lemma_full_rows(data, w, dims, dims1, z1, pd, to - 1);
        lemma_rows_span_split(dims1, z1, dims1, pd, 0, to - 1, to);
        let pre = rows_span(dims1, z1, dims1, pd, 0, to - 1);
        let blk = shift(slab_indices(dims1, z1, dims1), (to - 1) * pd);
        assert(rows_span(dims1, z1, dims1, pd, to, to) =~= Seq::<int>::empty());
        assert(rows_span(dims1, z1, dims1, pd, to - 1, to) =~= blk);
        lemma_gather_concat(data, w, pre, blk);
        // The last row gathers to its own window of the array.
        let inner = slab_indices(dims1, z1, dims1);
        lemma_slab_indices_bounds(dims1, z1, dims1);
        vstd::arithmetic::mul::lemma_mul_nonnegative(to - 1, pd);
        assert(prod(dims) == dims[0] * pd);
        assert(((to - 1) * pd + pd) * w <= data.len()) by (nonlinear_arith)
            requires
                w >= 1,
                pd >= 1,
                to >= 1,
                data.len() == prod(dims) * w,
                prod(dims) == dims[0] * pd,
                to <= dims[0],
        {}
        lemma_gather_shift(data, w, inner, (to - 1) * pd, pd);
        assert((to - 1) * pd * w >= 0) by (nonlinear_arith)
            requires to >= 1, pd >= 1, w >= 1,
        {}
        assert((to - 1) * pd * w <= ((to - 1) * pd + pd) * w) by (nonlinear_arith)
            requires pd >= 1, w >= 1,
        {}
        let row_window = data.subrange((to - 1) * pd * w, ((to - 1) * pd + pd) * w);
        assert(row_window.len() == ((to - 1) * pd + pd) * w - (to - 1) * pd * w);
        assert(((to - 1) * pd + pd) * w - (to - 1) * pd * w == pd * w) by (nonlinear_arith);
        lemma_full_gather(row_window, w, dims1);
        assert(gather(data, w, blk) == row_window) by {
            assert(data.subrange((to - 1) * pd * w, ((to - 1) * pd + pd) * w) == row_window);
        }
        assert(rows_span(dims1, z1, dims1, pd, 0, to) == pre + blk);
        assert(gather(data, w, rows_span(dims1, z1, dims1, pd, 0, to)) == gather(data, w, pre)
            + gather(data, w, blk));
        assert(data.subrange(0, (to - 1) * pd * w) + row_window =~= data.subrange(
            0,
            to * pd * w,
        )) by {
            assert(((to - 1) * pd + pd) * w == to * pd * w) by (nonlinear_arith);
            assert(to * pd * w <= data.len()) by (nonlinear_arith)
                requires
                    w >= 1,
                    pd >= 1,
                    data.len() == prod(dims) * w,
                    prod(dims) == dims[0] * pd,
                    to <= dims[0],
            {}
            assert((to - 1) * pd * w >= 0) by (nonlinear_arith)
                requires to >= 1, pd >= 1, w >= 1,
            {}
            assert((to - 1) * pd * w <= to * pd * w) by (nonlinear_arith)
                requires to >= 1, pd >= 1, w >= 1,
            {}
        }
    }
}

/// The product of a list splits at any point.
pub proof fn lemma_prod_split(s: Seq<usize>, k: int)
    requires
        0 <= k <= s.len(),
    ensures
        prod(s) == prod(s.subrange(0, k)) * prod(s.subrange(k, s.len() as int)),
    decreases k,
{
    if k == 0 {
        assert(s.subrange(0, 0) =~= Seq::<usize>::empty());
        assert(s.subrange(0, s.len() as int) =~= s);
        assert(1 * prod(s) == prod(s)) by (nonlinear_arith);
    } else {
        let rest = s.subrange(1, s.len() as int);
        lemma_prod_split(rest, k - 1);
        assert(s.subrange(0, k).subrange(1, k) =~= rest.subrange(0, k - 1));
        assert(s.subrange(k, s.len() as int) =~= rest.subrange(k - 1, rest.len() as int));
        assert(prod(s.subrange(0, k)) == s[0] * prod(rest.subrange(0, k - 1)));
        assert(prod(s) == s[0] * (prod(rest.subrange(0, k - 1)) * prod(
            rest.subrange(k - 1, rest.len() as int),
        )));
        assert(s[0] * (prod(rest.subrange(0, k - 1)) * prod(
            rest.subrange(k - 1, rest.len() as int),
        )) == (s[0] * prod(rest.subrange(0, k - 1))) * prod(
            rest.subrange(k - 1, rest.len() as int),
        )) by (nonlinear_arith);
    }
}

/// Multi-indices with all components in bounds sit at a nonnegative
/// linear position.
pub proof fn lemma_flat_nonneg(count: Seq<usize>, off: Seq<usize>)
    requires
        off.len() == count.len(),
    ensures
        flat_idx(count, off) >= 0,
    decreases count.len(),
{
    if count.len() > 0 {
        let c1 = count.subrange(1, count.len() as int);
        let o1 = off.subrange(1, off.len() as int);
        lemma_flat_nonneg(c1, o1);
        lemma_prod_pos_weak(c1);
        vstd::arithmetic::mul::lemma_mul_nonnegative(off[0] as int, prod(c1));
    }
}

/// The product of extents is never negative.
pub proof fn lemma_prod_pos_weak(dims: Seq<usize>)
    ensures
        prod(dims) >= 0,
    decreases dims.len(),
{
    if dims.len() > 0 {
        let d1 = dims.subrange(1, dims.len() as int);
        lemma_prod_pos_weak(d1);
        vstd::arithmetic::mul::lemma_mul_nonnegative(dims[0] as int, prod(d1));
    }
}

/// Changing one digit moves the linear position by the digit change
/// times that axis's stride.
pub proof fn lemma_flat_update(count: Seq<usize>, off: Seq<usize>, d: int, v: usize)
    requires
        off.len() == count.len(),
        0 <= d < count.len(),
    ensures
        flat_idx(count, off.update(d, v)) == flat_idx(count, off) + (v - off[d]) * prod(
            count.subrange(d + 1, count.len() as int),
        ),
    decreases d,
{
    let n = count.len() as int;
    let c1 = count.subrange(1, n);
    let o1 = off.subrange(1, off.len() as int);
    if d == 0 {
        assert(off.update(0, v).subrange(1, off.len() as int) =~= o1);
        assert(off.update(0, v)[0] == v);
        assert((v - off[0]) * prod(c1) == v * prod(c1) - off[0] * prod(c1)) by (nonlinear_arith);
        assert(count.subrange(1, n) =~= c1);
    } else {
        lemma_flat_update(c1, o1, d - 1, v);
        assert(off.update(d, v).subrange(1, off.len() as int) =~= o1.update(d - 1, v));
        assert(off.update(d, v)[0] == off[0]);
        assert(c1.subrange(d, c1.len() as int) =~= count.subrange(d + 1, n));
    }
}

/// The selections the walk takes at one step have the chunk shape.
pub proof fn lemma_mk_shape(
    count: Seq<usize>,
    off: Seq<usize>,
    jump: Seq<usize>,
    mj: Seq<usize>,
    a: int,
)
    requires
        off.len() == count.len(),
        jump.len() == count.len(),
        mj.len() == count.len(),
        0 <= a < count.len(),
        forall|d: int| 0 <= d < count.len() ==> (#[trigger] count[d]) >= 1,
        forall|d: int| 0 <= d < a ==> (#[trigger] jump[d]) == 1,
        forall|d: int| a < d < count.len() ==> (#[trigger] jump[d]) == count[d],
        1 <= jump[a] <= count[a],
        forall|d: int| 0 <= d <= a ==> (#[trigger] off[d]) < count[d],
        forall|d: int| a < d < count.len() ==> (#[trigger] off[d]) == 0,
        forall|d: int|
            0 <= d < count.len() ==> (#[trigger] mj[d]) as int == (if jump[d] <= count[d] - off[d] {
                jump[d] as int
            } else {
                count[d] - off[d]
            }),
    ensures
        chunk_shape(count, off, mj),
    decreases count.len(),
{
    let c1 = count.subrange(1, count.len() as int);
    let o1 = off.subrange(1, off.len() as int);
    let j1 = jump.subrange(1, jump.len() as int);
    let m1 = mj.subrange(1, mj.len() as int);
    if a == 0 {
        assert(1 <= mj[0] && off[0] + mj[0] <= count[0]);
        assert forall|d: int| 1 <= d < count.len() implies (#[trigger] off[d]) == 0 by {}
        assert forall|d: int| 1 <= d < count.len() implies (#[trigger] mj[d]) == count[d] by {
            assert(off[d] == 0);
            assert(jump[d] == count[d]);
        }
    } else {
        assert(mj[0] == 1);
        assert(off[0] < count[0]);
        lemma_mk_shape(c1, o1, j1, m1, a - 1);
        assert(chunk_shape(count, off, mj));
    }
}

/// The element count of one chunk: the pivot's run times the whole rows
/// below it.
pub proof fn lemma_chunk_prod(count: Seq<usize>, mj: Seq<usize>, a: int)
    requires
        mj.len() == count.len(),
        0 <= a < count.len(),
        forall|d: int| 0 <= d < a ==> (#[trigger] mj[d]) == 1,
        forall|d: int| a < d < count.len() ==> (#[trigger] mj[d]) == count[d],
    ensures
        prod(mj) == mj[a] * prod(count.subrange(a + 1, count.len() as int)),
    decreases a,
{
    let c1 = count.subrange(1, count.len() as int);
    let m1 = mj.subrange(1, mj.len() as int);
    if a == 0 {
        assert(m1 =~= c1);
    } else {
        lemma_chunk_prod(c1, m1, a - 1);
        assert(c1.subrange(a, c1.len() as int) =~= count.subrange(a + 1, count.len() as int));
        assert(prod(mj) == 1 * (m1[a - 1] * prod(c1.subrange(a, c1.len() as int))));
        assert(1 * (m1[a - 1] * prod(c1.subrange(a, c1.len() as int))) == m1[a - 1] * prod(
            c1.subrange(a, c1.len() as int),
        )) by (nonlinear_arith);
    }
}

/// The concatenation of a list of byte chunks.
pub open spec fn chunks_concat(cs: Seq<Vec<u8>>) -> Seq<u8>
    decreases cs.len(),
{
    if cs.len() == 0 {
        Seq::empty()
    } else {
        chunks_concat(cs.drop_last()) + cs.last()@
    }
}

/// The suffix products of a list of extents: `r[d]` is the number of
/// elements one step of axis `d - 1` spans.
fn suffix_products(dims: &Vec<usize>) -> (r: Vec<usize>)
    requires
        forall|i: int| 0 <= i < dims@.len() ==> (#[trigger] dims@[i]) >= 1,
        prod(dims@) <= usize::MAX,
    ensures
        r@.len() == dims@.len() + 1,
        forall|d: int|
            0 <= d <= dims@.len() ==> (#[trigger] r@[d]) as int == prod(
                dims@.subrange(d, dims@.len() as int),
            ),
{
    let n = dims.len();
    let mut rev: Vec<usize> = Vec::new();
    rev.push(1);
    proof {
        assert(dims@.subrange(n as int, n as int) =~= Seq::<usize>::empty());
    }
    let mut k: usize = 0;
    while k < n
        invariant
            k <= n,
            n == dims@.len(),
            rev@.len() == k + 1,
            forall|i: int| 0 <= i < dims@.len() ==> (#[trigger] dims@[i]) >= 1,
            prod(dims@) <= usize::MAX,
            forall|j: int|
                0 <= j <= k ==> (#[trigger] rev@[j]) as int == prod(
                    dims@.subrange(n - j, n as int),
                ),
        decreases n - k,
    {
        let d = n - 1 - k;
        proof {
            let suf = dims@.subrange(d as int, n as int);
            assert(suf.subrange(1, suf.len() as int) =~= dims@.subrange(d as int + 1, n as int));
            assert(prod(suf) == dims@[d as int] * prod(dims@.subrange(d as int + 1, n as int)));
            lemma_prod_split(dims@, d as int);
            lemma_prod_pos(dims@.subrange(0, d as int));
            lemma_prod_pos(suf);
            assert(prod(dims@) >= prod(suf)) by (nonlinear_arith)
                requires
                    prod(dims@) == prod(dims@.subrange(0, d as int)) * prod(suf),
                    prod(dims@.subrange(0, d as int)) >= 1,
                    prod(suf) >= 1,
            {}
        }
        let v = dims[d] * rev[k];
        rev.push(v);
        k = k + 1;
    }
    let mut out: Vec<usize> = Vec::new();
    let mut d: usize = 0;
    while d <= n
        invariant
            d <= n + 1,
            n == dims@.len(),
            rev@.len() == n + 1,
            out@.len() == d,
            forall|j: int|
                0 <= j <= n ==> (#[trigger] rev@[j]) as int == prod(dims@.subrange(n - j, n as int)),
            forall|j: int|
                0 <= j < d ==> (#[trigger] out@[j]) as int == prod(dims@.subrange(j, n as int)),
        decreases n + 1 - d,
    {
        out.push(rev[n - d]);
        d = d + 1;
    }
    out
}

/// Copies the slab rooted at flat element `base`, spanning the
/// dimensions from `d` on, onto the end of `out`.
fn read_rec(
    out: &mut Vec<u8>,
    data: &Vec<u8>,
    w: usize,
    dims: &Vec<usize>,
    start: &Vec<usize>,
    count: &Vec<usize>,
    strides: &Vec<usize>,
    d: usize,
    base: usize,
)
    requires
        w >= 1,
        slab_wf(dims@, start@, count@),
        data@.len() == prod(dims@) * w,
        d <= dims@.len(),
        strides@.len() == dims@.len() + 1,
        forall|j: int|
            0 <= j <= dims@.len() ==> (#[trigger] strides@[j]) as int == prod(
                dims@.subrange(j, dims@.len() as int),
            ),
        base + strides@[d as int] <= prod(dims@),
    ensures
        final(out)@ == old(out)@ + gather(
            data@,
            w as int,
            shift(
                slab_indices(
                    dims@.subrange(d as int, dims@.len() as int),
                    start@.subrange(d as int, start@.len() as int),
                    count@.subrange(d as int, count@.len() as int),
                ),
                base as int,
            ),
        ),
    decreases dims@.len() - d,
{
    let n = dims.len();
    if d == n {
        proof {
            assert(dims@.subrange(n as int, n as int) =~= Seq::<usize>::empty());
            assert(start@.subrange(n as int, n as int) =~= Seq::<usize>::empty());
            assert(count@.subrange(n as int, n as int) =~= Seq::<usize>::empty());
            assert(shift(seq![0int], base as int) =~= seq![base as int]);
            assert(seq![base as int].drop_last() =~= Seq::<int>::empty());
            assert(gather(data@, w as int, Seq::<int>::empty()) =~= Seq::<u8>::empty());
            assert(strides@[n as int] == 1);
            assert((base + 1) * w <= data@.len()) by (nonlinear_arith)
                requires
                    base + 1 <= prod(dims@),
                    data@.len() == prod(dims@) * w,
                    w >= 1,
            {}
            assert(base * w + w == (base + 1) * w) by (nonlinear_arith);
            vstd::arithmetic::mul::lemma_mul_nonnegative(base as int, w as int);
            assert(gather(data@, w as int, seq![base as int]) =~= data@.subrange(
                base as int * w,
                base as int * w + w,
            ));
        }
        let dlen = data.len();
        proof {
            assert(base * w + w <= dlen);
        }
        let lo = base * w;
        let mut k: usize = 0;
        while k < w
            invariant
                k <= w,
                lo == base * w,
                lo + w <= data@.len(),
                data@.len() <= usize::MAX,
                out@ == old(out)@ + data@.subrange(lo as int, lo as int + k),
            decreases w - k,
        {
            out.push(data[lo + k]);
            proof {
                assert(out@ =~= old(out)@ + data@.subrange(lo as int, lo as int + k + 1));
            }
            k = k + 1;
        }
        proof {
            assert(data@.subrange(lo as int, lo as int + w) =~= data@.subrange(
                base as int * w,
                base as int * w + w,
            ));
        }
    } else {
        let ghost dims1 = dims@.subrange(d as int + 1, n as int);
        let ghost start1 = start@.subrange(d as int + 1, n as int);
        let ghost count1 = count@.subrange(d as int + 1, n as int);
        let ghost dimsd = dims@.subrange(d as int, n as int);
        let ghost startd = start@.subrange(d as int, n as int);
        let ghost countd = count@.subrange(d as int, n as int);
        proof {
            assert(dimsd.subrange(1, dimsd.len() as int) =~= dims1);
            assert(startd.subrange(1, startd.len() as int) =~= start1);
            assert(countd.subrange(1, countd.len() as int) =~= count1);
            assert(prod(dimsd) == dims@[d as int] * prod(dims1));
        }
        let s0 = start[d];
        let c0 = count[d];
        let str1 = strides[d + 1];
        let mut i: usize = 0;
        proof {
            assert(rows_span(dims1, start1, count1, str1 as int, s0 as int, s0 as int)
                =~= Seq::<int>::empty());
            assert(shift(Seq::<int>::empty(), base as int) =~= Seq::<int>::empty());
            assert(gather(data@, w as int, Seq::<int>::empty()) =~= Seq::<u8>::empty());
            assert(out@ =~= old(out)@ + Seq::<u8>::empty());
        }
        while i < c0
            invariant
                i <= c0,
                n == dims@.len(),
                d < n,
                w >= 1,
                slab_wf(dims@, start@, count@),
                data@.len() == prod(dims@) * w,
                strides@.len() == n + 1,
                forall|j: int|
                    0 <= j <= n ==> (#[trigger] strides@[j]) as int == prod(
                        dims@.subrange(j, n as int),
                    ),
                base + strides@[d as int] <= prod(dims@),
                s0 == start@[d as int],
                c0 == count@[d as int],
                str1 == strides@[d as int + 1],
                dims1 == dims@.subrange(d as int + 1, n as int),
                start1 == start@.subrange(d as int + 1, n as int),
                count1 == count@.subrange(d as int + 1, n as int),
                out@ == old(out)@ + gather(
                    data@,
                    w as int,
                    shift(
                        rows_span(dims1, start1, count1, str1 as int, s0 as int, s0 as int + i),
                        base as int,
                    ),
                ),
            decreases c0 - i,
        {
            proof {
                assert(str1 as int == prod(dims1));
                assert(strides@[d as int] as int == prod(dims@.subrange(d as int, n as int)));
                assert(prod(dims@.subrange(d as int, n as int)) == dims@[d as int] * prod(dims1))
                    by {
                    assert(dims@.subrange(d as int, n as int).subrange(
                        1,
                        dims@.subrange(d as int, n as int).len() as int,
                    ) =~= dims1);
                }
                assert((s0 + i + 1) * str1 <= dims@[d as int] * str1) by (nonlinear_arith)
                    requires
                        s0 + i + 1 <= dims@[d as int],
                        str1 >= 0,
                {}
                assert(s0 + i + 1 <= dims@[d as int]);
                vstd::arithmetic::mul::lemma_mul_nonnegative(s0 as int + i, str1 as int);
                assert((s0 + i) * str1 + str1 == (s0 + i + 1) * str1) by (nonlinear_arith);
                assert(dims@[d as int] * str1 == strides@[d as int]);
                assert(base + (s0 + i) * str1 + str1 <= prod(dims@));
                lemma_prod_pos_weak(dims@);
                assert(prod(dims@) <= prod(dims@) * w) by (nonlinear_arith)
                    requires
                        w >= 1,
                        prod(dims@) >= 0,
                {}
            }
            let dlen = data.len();
            proof {
                assert(base + (s0 + i) * str1 + str1 <= dlen);
            }
            let nb = base + (s0 + i) * str1;
            read_rec(out, data, w, dims, start, count, strides, d + 1, nb);
            proof {
                lemma_rows_span_split(
                    dims1,
                    start1,
                    count1,
                    str1 as int,
                    s0 as int,
                    s0 as int + i,
                    s0 as int + i + 1,
                );
                let inner = slab_indices(dims1, start1, count1);
                let rpre = rows_span(dims1, start1, count1, str1 as int, s0 as int, s0 as int + i);
                let rnext = rows_span(
                    dims1,
                    start1,
                    count1,
                    str1 as int,
                    s0 as int,
                    s0 as int + i + 1,
                );
                assert(rows_span(
                    dims1,
                    start1,
                    count1,
                    str1 as int,
                    s0 as int + i + 1,
                    s0 as int + i + 1,
                ) =~= Seq::<int>::empty());
                assert(rows_span(
                    dims1,
                    start1,
                    count1,
                    str1 as int,
                    s0 as int + i,
                    s0 as int + i + 1,
                ) =~= shift(inner, (s0 as int + i) * str1));
                assert(rnext == rpre + shift(inner, (s0 as int + i) * str1));
                assert(shift(rnext, base as int) =~= shift(rpre, base as int) + shift(
                    shift(inner, (s0 as int + i) * str1),
                    base as int,
                ));
                assert(shift(shift(inner, (s0 as int + i) * str1), base as int) =~= shift(
                    inner,
                    nb as int,
                ));
                lemma_gather_concat(
                    data@,
                    w as int,
                    shift(rpre, base as int),
                    shift(inner, nb as int),
                );
            }
            i = i + 1;
        }
        proof {
            assert(slab_indices(dimsd, startd, countd) == rows_span(
                dims1,
                start1,
                count1,
                prod(dims1),
                s0 as int,
                s0 as int + c0,
            ));
            assert(str1 as int == prod(dims1));
        }
    }
}

/// Reads one hyperslab of a flat row-major array: the byte image of the
/// selected box, row-major, elements kept whole.
pub fn read_slab(
    data: &Vec<u8>,
    w: usize,
    dims: &Vec<usize>,
    start: &Vec<usize>,
    count: &Vec<usize>,
) -> (r: Vec<u8>)
    requires
        w >= 1,
        slab_wf(dims@, start@, count@),
        data@.len() == prod(dims@) * w,
    ensures
        r@ == slab_bytes(data@, w as int, dims@, start@, count@),
{
    let dlen = data.len();
    proof {
        lemma_prod_pos(dims@);
        assert(prod(dims@) <= prod(dims@) * w) by (nonlinear_arith)
            requires
                w >= 1,
                prod(dims@) >= 1,
        {}
        assert(prod(dims@) <= dlen);
    }
    let strides = suffix_products(dims);
    let mut out: Vec<u8> = Vec::new();
    let n = dims.len();
    proof {
        assert(dims@.subrange(0, n as int) =~= dims@);
        assert(start@.subrange(0, n as int) =~= start@);
        assert(count@.subrange(0, n as int) =~= count@);
    }
    read_rec(&mut out, data, w, dims, start, count, &strides, 0, 0);
    proof {
        assert(shift(slab_indices(dims@, start@, count@), 0) =~= slab_indices(
            dims@,
            start@,
            count@,
        ));
    }
    out
}

/// Picks the per-axis jump of the budgeted walk: axes below the pivot
/// are taken whole, the pivot packs as many rows as the budget allows,
/// and axes above it step one at a time. Returns the jumps and the
/// pivot axis.
fn plan_jumps(count: &Vec<usize>, budget: usize) -> (r: (Vec<usize>, usize))
    requires
        budget >= 1,
        count@.len() >= 1,
        forall|i: int| 0 <= i < count@.len() ==> (#[trigger] count@[i]) >= 1,
    ensures
        r.0@.len() == count@.len(),
        r.1 < count@.len(),
        forall|j: int| 0 <= j < r.1 ==> (#[trigger] r.0@[j]) == 1,
        forall|j: int| r.1 < j < count@.len() ==> (#[trigger] r.0@[j]) == count@[j],
        1 <= r.0@[r.1 as int] <= count@[r.1 as int],
{
    let n = count.len();
    let mut jrev: Vec<usize> = Vec::new();
    let mut acc: usize = 1;
    let mut full_mode = true;
    let mut qk: usize = 0;
    let mut k: usize = 0;
    while k < n
        invariant
            k <= n,
            n == count@.len(),
            n >= 1,
            budget >= 1,
            acc >= 1,
            jrev@.len() == k,
            forall|i: int| 0 <= i < count@.len() ==> (#[trigger] count@[i]) >= 1,
            full_mode ==> {
                &&& forall|j: int| 0 <= j < k ==> (#[trigger] jrev@[j]) == count@[n - 1 - j]
                &&& acc as int == prod(count@.subrange(n - k, n as int))
                &&& acc <= budget
            },
            !full_mode ==> {
                &&& qk < k
                &&& forall|j: int| 0 <= j < qk ==> (#[trigger] jrev@[j]) == count@[n - 1 - j]
                &&& 1 <= jrev@[qk as int] <= count@[n - 1 - qk]
                &&& forall|j: int| qk < j < k ==> (#[trigger] jrev@[j]) == 1
                &&& 2 * acc > budget
            },
        decreases n - k,
    {
        let d = n - 1 - k;
        if acc >= budget {
            if full_mode {
                full_mode = false;
                qk = k;
            }
            jrev.push(1);
        } else {
            let room = budget / acc;
            proof {
                vstd::arithmetic::div_mod::lemma_fundamental_div_mod(budget as int, acc as int);
                vstd::arithmetic::div_mod::lemma_div_non_zero(budget as int, acc as int);
                assert(acc * room <= budget) by (nonlinear_arith)
                    requires
                        budget as int == (acc as int) * (room as int) + budget as int % acc as int,
                        budget % acc >= 0,
                {}
            }
            let p = if room < count[d] {
                room
            } else {
                count[d]
            };
            if full_mode {
                if p == count[d] {
                    proof {
                        let suf = count@.subrange(d as int, n as int);
                        assert(suf.subrange(1, suf.len() as int) =~= count@.subrange(
                            d as int + 1,
                            n as int,
                        ));
                        assert(count@.subrange(d as int + 1, n as int) =~= count@.subrange(
                            n - k,
                            n as int,
                        ));
                        assert(prod(suf) == count@[d as int] * prod(
                            count@.subrange(n - k, n as int),
                        ));
                        assert(acc * p <= budget) by (nonlinear_arith)
                            requires
                                p <= room,
                                acc * room <= budget,
                                acc >= 1,
                                p >= 1,
                                room >= 1,
                        {}
                        assert(acc * p >= 1) by (nonlinear_arith)
                            requires
                                acc >= 1,
                                p >= 1,
                        {}
                        assert((acc * p) as int == prod(count@.subrange(d as int, n as int)))
                            by (nonlinear_arith)
                            requires
                                prod(count@.subrange(d as int, n as int)) == (count@[d as int]
                                    as int) * (acc as int),
                                p == count@[d as int],
                        {}
                    }
                    jrev.push(p);
                    acc = acc * p;
                    proof {
                        assert(count@.subrange(d as int, n as int) =~= count@.subrange(
                            n - (k + 1),
                            n as int,
                        ));
                    }
                } else {
                    // The pivot axis.
                    full_mode = false;
                    qk = k;
                    proof {
                        assert(2 * (acc * room) > budget) by (nonlinear_arith)
                            requires
                                budget as int == (acc as int) * (room as int) + budget as int
                                    % acc as int,
                                (budget as int % acc as int) < acc as int,
                                room >= 1,
                                acc >= 1,
                        {}
                        assert(acc * room >= 1) by (nonlinear_arith)
                            requires
                                acc >= 1,
                                room >= 1,
                        {}
                    }
                    jrev.push(p);
                    acc = acc * room;
                }
            } else {
                proof {
                    assert(room == 1) by (nonlinear_arith)
                        requires
                            budget as int == (acc as int) * (room as int) + budget as int
                                % acc as int,
                            budget % acc >= 0,
                            2 * acc > budget,
                            acc < budget,
                            room >= 1,
                    {}
                }
                jrev.push(p);
            }
        }
        k = k + 1;
    }
    let mut jump: Vec<usize> = Vec::new();
    let mut d: usize = 0;
    while d < n
        invariant
            d <= n,
            n == count@.len(),
            jrev@.len() == n,
            jump@.len() == d,
            forall|j: int| 0 <= j < d ==> (#[trigger] jump@[j]) == jrev@[n - 1 - j],
        decreases n - d,
    {
        jump.push(jrev[n - 1 - d]);
        d = d + 1;
    }
    let a = if full_mode {
        0
    } else {
        n - 1 - qk
    };
    proof {
        assert forall|dd: int| 0 <= dd < a implies (#[trigger] jump@[dd]) == 1 by {
            assert(jump@[dd] == jrev@[n - 1 - dd]);
        }
        assert forall|dd: int| a < dd < n implies (#[trigger] jump@[dd]) == count@[dd] by {
            assert(jump@[dd] == jrev@[n - 1 - dd]);
        }
        assert(1 <= jump@[a as int] <= count@[a as int]) by {
            assert(jump@[a as int] == jrev@[n - 1 - a]);
        }
    }
    (jump, a)
}

/// The per-axis run this step takes: the jump, clipped to what is left
/// of each axis.
fn chunk_extents(jump: &Vec<usize>, count: &Vec<usize>, off: &Vec<usize>) -> (mj: Vec<usize>)
    requires
        jump@.len() == count@.len(),
        off@.len() == count@.len(),
        forall|j: int| 0 <= j < off@.len() ==> (#[trigger] off@[j]) <= count@[j],
    ensures
        mj@.len() == count@.len(),
        forall|j: int|
            0 <= j < mj@.len() ==> (#[trigger] mj@[j]) as int == (if jump@[j] <= count@[j]
                - off@[j] {
                jump@[j] as int
            } else {
                count@[j] - off@[j]
            }),
{
    let n = count.len();
    let mut mj: Vec<usize> = Vec::new();
    let mut d: usize = 0;
    while d < n
        invariant
            d <= n,
            n == count@.len(),
            jump@.len() == n,
            off@.len() == n,
            forall|j: int| 0 <= j < n ==> (#[trigger] off@[j]) <= count@[j],
            mj@.len() == d,
            forall|j: int|
                0 <= j < d ==> (#[trigger] mj@[j]) as int == (if jump@[j] <= count@[j] - off@[j] {
                    jump@[j] as int
                } else {
                    count@[j] - off@[j]
                }),
        decreases n - d,
    {
        let rem = count[d] - off[d];
        let m = if jump[d] <= rem {
            jump[d]
        } else {
            rem
        };
        mj.push(m);
        d = d + 1;
    }
    mj
}

/// The absolute origin of this step: the slab origin plus the offset.
fn chunk_origin(start: &Vec<usize>, off: &Vec<usize>, count: &Vec<usize>, dims: &Vec<usize>) -> (abs: Vec<usize>)
    requires
        off@.len() == start@.len(),
        count@.len() == start@.len(),
        dims@.len() == start@.len(),
        forall|j: int| 0 <= j < off@.len() ==> (#[trigger] off@[j]) <= count@[j],
        forall|j: int|
            0 <= j < start@.len() ==> (#[trigger] start@[j]) + count@[j] <= dims@[j],
    ensures
        abs@ == addv(start@, off@),
{
    let n = start.len();
    let mut abs: Vec<usize> = Vec::new();
    let mut d: usize = 0;
    while d < n
        invariant
            d <= n,
            n == start@.len(),
            off@.len() == n,
            count@.len() == n,
            dims@.len() == n,
            forall|j: int| 0 <= j < n ==> (#[trigger] off@[j]) <= count@[j],
            forall|j: int| 0 <= j < n ==> (#[trigger] start@[j]) + count@[j] <= dims@[j],
            abs@.len() == d,
            forall|j: int| 0 <= j < d ==> (#[trigger] abs@[j]) == start@[j] + off@[j],
        decreases n - d,
    {
        abs.push(start[d] + off[d]);
        d = d + 1;
    }
    proof {
        assert(abs@ =~= addv(start@, off@));
    }
    abs
}

/// Advances the walk's offsets by one chunk at the pivot axis,
/// carrying into the axes above it.
fn advance_offsets(off: &mut Vec<usize>, count: &Vec<usize>, a: usize, m: usize, Ghost(pos): Ghost<int>)
    requires
        a < count@.len(),
        old(off)@.len() == count@.len(),
        forall|i: int| 0 <= i < count@.len() ==> (#[trigger] count@[i]) >= 1,
        forall|j: int| 0 <= j <= a ==> (#[trigger] old(off)@[j]) < count@[j],
        forall|j: int| a < j < count@.len() ==> (#[trigger] old(off)@[j]) == 0,
        old(off)@[a as int] + m <= count@[a as int],
        pos == flat_idx(count@, old(off)@),
    ensures
        final(off)@.len() == count@.len(),
        forall|j: int| 1 <= j <= a ==> (#[trigger] final(off)@[j]) < count@[j],
        final(off)@[0] <= count@[0],
        forall|j: int| a < j < count@.len() ==> (#[trigger] final(off)@[j]) == 0,
        flat_idx(count@, final(off)@) == pos + m * prod(
            count@.subrange(a as int + 1, count@.len() as int),
        ),
{
    let n = count.len();
    let ghost before = off@;
    let newa = off[a] + m;
    off[a] = newa;
    proof {
        lemma_flat_update(count@, before, a as int, newa);
        assert((newa - before[a as int]) * prod(count@.subrange(a as int + 1, n as int)) == m
            * prod(count@.subrange(a as int + 1, n as int))) by (nonlinear_arith)
            requires
                newa - before[a as int] == m as int,
        {}
    }
    let ghost target = pos + m * prod(count@.subrange(a as int + 1, n as int));
    let mut d: usize = a;
    while d > 0
        invariant
            0 <= d <= a,
            a < n,
            n == count@.len(),
            off@.len() == n,
            forall|i: int| 0 <= i < count@.len() ==> (#[trigger] count@[i]) >= 1,
            forall|j: int| 1 <= j < d ==> (#[trigger] off@[j]) < count@[j],
            d > 0 ==> off@[0] < count@[0],
            forall|j: int| 0 <= j <= a ==> (#[trigger] off@[j]) <= count@[j],
            forall|j: int| d < j <= a ==> (#[trigger] off@[j]) < count@[j],
            forall|j: int| a < j < n ==> (#[trigger] off@[j]) == 0,
            target == flat_idx(count@, off@),
        ensures
            off@.len() == n,
            forall|j: int| 1 <= j <= a ==> (#[trigger] off@[j]) < count@[j],
            off@[0] <= count@[0],
            forall|j: int| a < j < n ==> (#[trigger] off@[j]) == 0,
            target == flat_idx(count@, off@),
        decreases d,
    {
        if off[d] < count[d] {
            break ;
        }
        let ghost mid = off@;
        off[d] = 0;
        let bump = off[d - 1] + 1;
        let ghost mid2 = off@;
        off[d - 1] = bump;
        proof {
            lemma_flat_update(count@, mid, d as int, 0);
            lemma_flat_update(count@, mid2, d as int - 1, bump);
            let pd1 = prod(count@.subrange(d as int + 1, n as int));
            let pdd = prod(count@.subrange(d as int, n as int));
            assert(count@.subrange(d as int, n as int).subrange(
                1,
                count@.subrange(d as int, n as int).len() as int,
            ) =~= count@.subrange(d as int + 1, n as int));
            assert(pdd == count@[d as int] * pd1);
            assert((0 - mid[d as int]) * pd1 + (bump - mid2[d as int - 1]) * pdd == 0)
                by (nonlinear_arith)
                requires
                    mid[d as int] == count@[d as int],
                    bump - mid2[d as int - 1] == 1,
                    pdd == count@[d as int] * pd1,
            {}
        }
        d = d - 1;
    }
}

/// Streams one hyperslab as a list of chunks, each a run of whole
/// trailing rows sized to roughly `budget` elements. Whatever the
/// budget, the chunks concatenate to exactly the slab's bytes, and each
/// chunk breaks on an element boundary.
#[verifier::rlimit(100)]
pub fn stream_slab(
    data: &Vec<u8>,
    w: usize,
    dims: &Vec<usize>,
    start: &Vec<usize>,
    count: &Vec<usize>,
    budget: usize,
) -> (r: Vec<Vec<u8>>)
    requires
        w >= 1,
        budget >= 1,
        slab_wf(dims@, start@, count@),
        data@.len() == prod(dims@) * w,
    ensures
        chunks_concat(r@) == slab_bytes(data@, w as int, dims@, start@, count@),
        forall|i: int| 0 <= i < r@.len() ==> (#[trigger] r@[i])@.len() as int % (w as int) == 0,
        forall|i: int| 0 <= i < r@.len() ==> (#[trigger] r@[i])@.len() > 0,
{
    let n = dims.len();
    let ghost iall = slab_indices(dims@, start@, count@);
    if n == 0 {
        let chunk = read_slab(data, w, dims, start, count);
        let mut r: Vec<Vec<u8>> = Vec::new();
        proof {
            assert(chunks_concat(Seq::<Vec<u8>>::empty()) =~= Seq::<u8>::empty());
        }
        r.push(chunk);
        proof {
            assert(r@.drop_last() =~= Seq::<Vec<u8>>::empty());
            assert(chunks_concat(r@) =~= slab_bytes(data@, w as int, dims@, start@, count@));
            assert(slab_indices(dims@, start@, count@) =~= seq![0int]);
            assert(seq![0int].drop_last() =~= Seq::<int>::empty());
            assert(gather(data@, w as int, Seq::<int>::empty()) =~= Seq::<u8>::empty());
            assert(0 * w as int == 0) by (nonlinear_arith);
            assert(chunk@.len() == w);
            vstd::arithmetic::div_mod::lemma_mod_self_0(w as int);
        }
        return r;
    }
    // Counts are at most the dimensions, so their products fit.
    proof {
        assert forall|i: int| 0 <= i < count@.len() implies 1 <= (#[trigger] count@[i])
            && count@[i] <= dims@[i] by {}
        lemma_prod_le(count@, dims@);
        lemma_prod_pos(dims@);
        assert(prod(dims@) <= prod(dims@) * w) by (nonlinear_arith)
            requires
                w >= 1,
                prod(dims@) >= 1,
        {}
    }
    let dlen = data.len();
    proof {
        assert(prod(count@) <= dlen);
        assert(prod(dims@) <= dlen);
    }
    let cstr = suffix_products(count);
    let total = cstr[0];
    proof {
        assert(count@.subrange(0, n as int) =~= count@);
    }
    let (jump, a) = plan_jumps(count, budget);
    let mut off: Vec<usize> = Vec::new();
    let mut d: usize = 0;
    while d < n
        invariant
            d <= n,
            off@.len() == d,
            forall|j: int| 0 <= j < d ==> (#[trigger] off@[j]) == 0,
        decreases n - d,
    {
        off.push(0);
        d = d + 1;
    }
    let mut chunks: Vec<Vec<u8>> = Vec::new();
    let mut pos: usize = 0;
    proof {
        lemma_flat_zeros(count@, off@);
        lemma_slab_len(dims@, start@, count@);
        assert(chunks_concat(Seq::<Vec<u8>>::empty()) =~= Seq::<u8>::empty());
        assert(gather(data@, w as int, iall.subrange(0, 0)) =~= Seq::<u8>::empty());
    }
    while pos < total
        invariant
            n == dims@.len(),
            n >= 1,
            w >= 1,
            slab_wf(dims@, start@, count@),
            data@.len() == prod(dims@) * w,
            iall == slab_indices(dims@, start@, count@),
            iall.len() == prod(count@),
            total as int == prod(count@),
            cstr@.len() == n + 1,
            forall|j: int|
                0 <= j <= n ==> (#[trigger] cstr@[j]) as int == prod(count@.subrange(j, n as int)),
            jump@.len() == n,
            0 <= a < n,
            forall|j: int| 0 <= j < a ==> (#[trigger] jump@[j]) == 1,
            forall|j: int| a < j < n ==> (#[trigger] jump@[j]) == count@[j],
            1 <= jump@[a as int] <= count@[a as int],
            off@.len() == n,
            forall|j: int| 1 <= j <= a ==> (#[trigger] off@[j]) < count@[j],
            off@[0] <= count@[0],
            forall|j: int| a < j < n ==> (#[trigger] off@[j]) == 0,
            pos as int == flat_idx(count@, off@),
            pos <= total,
            chunks_concat(chunks@) == gather(data@, w as int, iall.subrange(0, pos as int)),
            forall|j: int|
                0 <= j < chunks@.len() ==> (#[trigger] chunks@[j])@.len() as int % (w as int) == 0,
            forall|j: int| 0 <= j < chunks@.len() ==> (#[trigger] chunks@[j])@.len() > 0,
        decreases total - pos,
    {
        proof {
            if off@[0] == count@[0] {
                let c1 = count@.subrange(1, n as int);
                let o1 = off@.subrange(1, n as int);
                lemma_flat_nonneg(c1, o1);
                lemma_prod_pos(c1);
                assert(flat_idx(count@, off@) == count@[0] * prod(c1) + flat_idx(c1, o1));
                assert(prod(count@) == count@[0] * prod(c1));
                assert(false);
            }
        }
        let mj = chunk_extents(&jump, count, &off);
        proof {
            lemma_mk_shape(count@, off@, jump@, mj@, a as int);
            lemma_shape_bounds(count@, off@, mj@);
            lemma_shape_flat_bound(count@, off@, mj@);
        }
        let abs = chunk_origin(start, &off, count, dims);
        proof {
            assert forall|j: int|
                0 <= j < n implies 1 <= (#[trigger] mj@[j]) && abs@[j] + mj@[j] <= dims@[j] by {
                assert(off@[j] + mj@[j] <= count@[j]);
                assert(start@[j] + count@[j] <= dims@[j]);
            }
        }
        let chunk = read_slab(data, w, dims, &abs, &mj);
        // This chunk is the next contiguous run of the slab's elements.
        let ghost pm = prod(mj@);
        proof {
            lemma_chunk_is_segment(dims@, start@, count@, off@, mj@);
            lemma_chunk_prod(count@, mj@, a as int);
            assert forall|j: int| 0 <= j < mj@.len() implies (#[trigger] mj@[j]) >= 1 by {}
            lemma_prod_pos(mj@);
            assert(slab_indices(dims@, abs@, mj@) == slab_indices(dims@, addv(start@, off@), mj@));
            assert(chunk@ == gather(data@, w as int, iall.subrange(pos as int, pos as int + pm)));
            assert(pos as int + pm <= iall.len());
            assert(iall.subrange(0, pos as int) + iall.subrange(pos as int, pos as int + pm)
                =~= iall.subrange(0, pos as int + pm));
            lemma_gather_concat(
                data@,
                w as int,
                iall.subrange(0, pos as int),
                iall.subrange(pos as int, pos as int + pm),
            );
            assert(chunks_concat(chunks@.push(chunk)) == chunks_concat(chunks@) + chunk@) by {
                assert(chunks@.push(chunk).drop_last() =~= chunks@);
            }
            // Chunks break on element boundaries.
            lemma_slab_indices_bounds(dims@, start@, count@);
            let seg = iall.subrange(pos as int, pos as int + pm);
            assert forall|j: int|
                0 <= j < seg.len() implies 0 <= #[trigger] seg[j] && (seg[j] + 1) * (w as int)
                <= data@.len() by {
                assert(seg[j] == iall[pos + j]);
                assert(iall[pos + j] < prod(dims@));
                vstd::arithmetic::mul::lemma_mul_inequality(seg[j] + 1, prod(dims@), w as int);
            }
            lemma_gather_len(data@, w as int, seg);
            assert(chunk@.len() as int == pm * w);
            assert(pm * w >= 1) by (nonlinear_arith)
                requires
                    pm >= 1,
                    w >= 1,
            {}
            vstd::arithmetic::div_mod::lemma_mod_multiples_basic(pm, w as int);
        }
        chunks.push(chunk);
        let m = mj[a];
        let step = m * cstr[a + 1];
        proof {
            assert(step as int == pm);
        }
        advance_offsets(&mut off, count, a, m, Ghost(pos as int));
        pos = pos + step;
    }
    proof {
        assert(iall.subrange(0, total as int) =~= iall);
    }
    chunks
}

/// A chunk list's bytes split at its first chunk.
pub proof fn lemma_chunks_concat_front(cs: Seq<Vec<u8>>)
    requires
        cs.len() > 0,
    ensures
        chunks_concat(cs) == cs[0]@ + chunks_concat(cs.subrange(1, cs.len() as int)),
    decreases cs.len(),
{
    if cs.len() == 1 {
        assert(cs.drop_last() =~= Seq::<Vec<u8>>::empty());
        assert(cs.subrange(1, 1) =~= Seq::<Vec<u8>>::empty());
        assert(chunks_concat(Seq::<Vec<u8>>::empty()) =~= Seq::<u8>::empty());
        assert(cs[0]@ + Seq::<u8>::empty() =~= cs[0]@);
        assert(Seq::<u8>::empty() + cs[0]@ =~= cs[0]@);
        assert(cs.last() == cs[0]);
    } else {
        let d = cs.drop_last();
        lemma_chunks_concat_front(d);
        let t = cs.subrange(1, cs.len() as int);
        assert(t.drop_last() =~= d.subrange(1, d.len() as int));
        assert(t.last() == cs.last());
        assert(chunks_concat(t) == chunks_concat(d.subrange(1, d.len() as int)) + cs.last()@);
        assert(d[0] == cs[0]);
        assert(cs[0]@ + (chunks_concat(d.subrange(1, d.len() as int)) + cs.last()@) =~= (cs[0]@
            + chunks_concat(d.subrange(1, d.len() as int))) + cs.last()@);
    }
}

/// Chunking independence: streaming one slab with any two internal
/// chunk sizes yields the same byte sequence once the chunks are
/// concatenated.
pub proof fn lemma_chunking_independence(
    c1: Seq<Vec<u8>>,
    c2: Seq<Vec<u8>>,
    data: Seq<u8>,
    w: int,
    dims: Seq<usize>,
    start: Seq<usize>,
    count: Seq<usize>,
)
    requires
        chunks_concat(c1) == slab_bytes(data, w, dims, start, count),
        chunks_concat(c2) == slab_bytes(data, w, dims, start, count),
    ensures
        chunks_concat(c1) == chunks_concat(c2),
{
}

/// Gathered bytes have one element width per index.
pub proof fn lemma_gather_len(data: Seq<u8>, w: int, idxs: Seq<int>)
    requires
        w >= 0,
        forall|j: int| 0 <= j < idxs.len() ==> 0 <= #[trigger] idxs[j] && (idxs[j] + 1) * w
            <= data.len(),
    ensures
        gather(data, w, idxs).len() == idxs.len() * w,
    decreases idxs.len(),
{
    if idxs.len() > 0 {
        assert(forall|j: int|
            0 <= j < idxs.drop_last().len() ==> #[trigger] idxs.drop_last()[j] == idxs[j]);
        lemma_gather_len(data, w, idxs.drop_last());
        let l = idxs.last();
        assert(0 <= l && (l + 1) * w <= data.len());
        assert((l + 1) * w == l * w + w) by (nonlinear_arith);
        vstd::arithmetic::mul::lemma_mul_nonnegative(l, w);
        assert(data.subrange(l * w, l * w + w).len() == w);
        assert(idxs.len() * w == (idxs.len() - 1) * w + w) by (nonlinear_arith);
    }
}

} // verus!
