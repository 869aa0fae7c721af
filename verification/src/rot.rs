//! Strided pairwise rotation: two vector views are walked together, and each
//! pair of logical elements is replaced by what a step function makes of it.
//!
//! A plane rotation with coefficients `c` and `s` is the step
//! `(xi, yi) -> (c * xi + s * yi, c * yi - s * xi)`. The walk does not look
//! into the element type, so the arithmetic of the step is the caller's.

use crate::stride::{
    check_inc, covered, fits, get_first_index, lemma_position_fresh, lemma_position_in_bounds,
    lemma_position_next, next_index, occupied, position,
};
use vstd::prelude::*;

verus! {

/// Whether a rotation returns at once, with success and without looking at
/// either buffer: when there is nothing to walk (`n <= 0`), when the caller
/// declares the rotation to be the identity, and when a stride is zero.
pub open spec fn rot_is_noop(n: int, incx: int, incy: int, identity: bool) -> bool {
    n <= 0 || identity || incx == 0 || incy == 0
}

/// Whether the buffers `x1` and `y1` are what a walk with `step` over the
/// views `(x0, incx)` and `(y0, incy)` leaves: each pair of logical elements is
/// an outcome of `step` on the pair that was there before the walk, and every
/// index outside the views holds what it held.
pub open spec fn rotated<T, F: Fn(T, T) -> (T, T)>(
    step: F,
    n: int,
    x0: Seq<T>,
    incx: int,
    y0: Seq<T>,
    incy: int,
    x1: Seq<T>,
    y1: Seq<T>,
) -> bool {
    &&& x1.len() == x0.len()
    &&& y1.len() == y0.len()
    &&& forall|i: int|
        0 <= i < n ==> step.ensures(
            (x0[#[trigger] position(n, incx, i)], y0[position(n, incy, i)]),
            (x1[position(n, incx, i)], y1[position(n, incy, i)]),
        )
    &&& forall|p: int| 0 <= p < x0.len() && !#[trigger] occupied(n, incx, p) ==> x1[p] == x0[p]
    &&& forall|p: int| 0 <= p < y0.len() && !#[trigger] occupied(n, incy, p) ==> y1[p] == y0[p]
}

/// Whether `x1` and `y1` are the buffers after the first `k` steps of the walk.
spec fn rotated_upto<T, F: Fn(T, T) -> (T, T)>(
    step: F,
    n: int,
    k: int,
    x0: Seq<T>,
    incx: int,
    y0: Seq<T>,
    incy: int,
    x1: Seq<T>,
    y1: Seq<T>,
) -> bool {
    &&& x1.len() == x0.len()
    &&& y1.len() == y0.len()
    &&& forall|i: int|
        0 <= i < k ==> step.ensures(
            (x0[#[trigger] position(n, incx, i)], y0[position(n, incy, i)]),
            (x1[position(n, incx, i)], y1[position(n, incy, i)]),
        )
    &&& forall|p: int|
        0 <= p < x0.len() && !#[trigger] covered(n, incx, k, p) ==> x1[p] == x0[p]
    &&& forall|p: int|
        0 <= p < y0.len() && !#[trigger] covered(n, incy, k, p) ==> y1[p] == y0[p]
}

/// Step `k` of the walk finds the pair that was at logical element `k` before
/// the walk, and writing an outcome of `step` on it there extends the walk by
/// one element.
proof fn lemma_rot_step<T, F: Fn(T, T) -> (T, T)>(
    step: F,
    n: int,
    k: int,
    x0: Seq<T>,
    incx: int,
    y0: Seq<T>,
    incy: int,
    x1: Seq<T>,
    y1: Seq<T>,
    out: (T, T),
)
    requires
        0 <= k < n,
        incx != 0,
        incy != 0,
        fits(n, incx, x0.len() as int),
        fits(n, incy, y0.len() as int),
        rotated_upto(step, n, k, x0, incx, y0, incy, x1, y1),
        step.ensures((x1[position(n, incx, k)], y1[position(n, incy, k)]), out),
    ensures
        x1[position(n, incx, k)] == x0[position(n, incx, k)],
        y1[position(n, incy, k)] == y0[position(n, incy, k)],
        rotated_upto(
            step,
            n,
            k + 1,
            x0,
            incx,
            y0,
            incy,
            x1.update(position(n, incx, k), out.0),
            y1.update(position(n, incy, k), out.1),
        ),
{
    let px = position(n, incx, k);
    let py = position(n, incy, k);
    lemma_position_in_bounds(n, incx, x0.len() as int, k);
    lemma_position_in_bounds(n, incy, y0.len() as int, k);
    lemma_position_fresh(n, incx, k);
    lemma_position_fresh(n, incy, k);
    let x2 = x1.update(px, out.0);
    let y2 = y1.update(py, out.1);
    assert forall|i: int| 0 <= i < k + 1 implies step.ensures(
        (x0[#[trigger] position(n, incx, i)], y0[position(n, incy, i)]),
        (x2[position(n, incx, i)], y2[position(n, incy, i)]),
    ) by {
        lemma_position_in_bounds(n, incx, x0.len() as int, i);
        lemma_position_in_bounds(n, incy, y0.len() as int, i);
        if i < k {
            assert(covered(n, incx, k, position(n, incx, i)));
            assert(covered(n, incy, k, position(n, incy, i)));
        }
    }
    assert forall|p: int| 0 <= p < x0.len() && !#[trigger] covered(n, incx, k + 1, p) implies x2[p]
        == x0[p] by {
        assert(!covered(n, incx, k, p));
        assert(p != position(n, incx, k));
    }
    assert forall|p: int| 0 <= p < y0.len() && !#[trigger] covered(n, incy, k + 1, p) implies y2[p]
        == y0[p] by {
        assert(!covered(n, incy, k, p));
        assert(p != position(n, incy, k));
    }
}

/// Round trip: a walk with `step` followed by a walk over the same views with
/// a step that undoes `step` leaves both buffers as they were before the first
/// walk. For a plane rotation with `c * c + s * s = 1` in exact arithmetic the
/// undoing step is the rotation with `c` and `-s`.
pub proof fn lemma_rot_undone<T, F: Fn(T, T) -> (T, T), G: Fn(T, T) -> (T, T)>(
    step: F,
    back: G,
    n: int,
    x0: Seq<T>,
    incx: int,
    y0: Seq<T>,
    incy: int,
    x1: Seq<T>,
    y1: Seq<T>,
    x2: Seq<T>,
    y2: Seq<T>,
)
    requires
        forall|a: T, b: T, mid: (T, T), end: (T, T)|
            #[trigger] step.ensures((a, b), mid) && #[trigger] back.ensures(mid, end) ==> end == (
                a,
                b,
            ),
        rotated(step, n, x0, incx, y0, incy, x1, y1),
        rotated(back, n, x1, incx, y1, incy, x2, y2),
    ensures
        x2 == x0,
        y2 == y0,
{
    assert forall|p: int| 0 <= p < x0.len() implies x2[p] == x0[p] by {
        if occupied(n, incx, p) {
            let i = choose|i: int| 0 <= i < n && #[trigger] position(n, incx, i) == p;
            let q = position(n, incy, i);
            assert(step.ensures((x0[p], y0[q]), (x1[p], y1[q])));
            assert(back.ensures((x1[p], y1[q]), (x2[p], y2[q])));
        }
    }
    assert forall|q: int| 0 <= q < y0.len() implies y2[q] == y0[q] by {
        if occupied(n, incy, q) {
            let i = choose|i: int| 0 <= i < n && #[trigger] position(n, incy, i) == q;
            let p = position(n, incx, i);
            assert(step.ensures((x0[p], y0[q]), (x1[p], y1[q])));
            assert(back.ensures((x1[p], y1[q]), (x2[p], y2[q])));
        }
    }
    assert(x2 =~= x0);
    assert(y2 =~= y0);
}

/// Walks the views `(x, incx)` and `(y, incy)` together, in increasing
/// logical order, and replaces each pair of logical elements `(xi, yi)` by
/// `step(xi, yi)`. Both new values are made from the pair as it was before the
/// step.
///
/// The walk returns at once, with success and without validating or touching
/// either buffer, when `n <= 0`, when `identity` is set, and when a stride is
/// zero. The caller sets `identity` when the coefficients are exactly `c = 1`
/// and `s = 0`; such a rotation succeeds even on buffers too short for their
/// view. The return on a zero stride is the convention of the BLAS routine
/// `drot`; the alternative, to ask for a buffer of one element and to apply
/// every step to the element at index 0, is not taken.
///
/// Otherwise both views are validated before anything is written. The walk
/// fails, and leaves both buffers as they were, when a buffer cannot hold its
/// view.
pub fn rot<T: Copy, F: Fn(T, T) -> (T, T)>(
    n: isize,
    x: &mut [T],
    incx: isize,
    y: &mut [T],
    incy: isize,
    identity: bool,
    step: F,
) -> (ok: bool)
    requires
        !rot_is_noop(n as int, incx as int, incy as int, identity) && fits(
            n as int,
            incx as int,
            old(x)@.len() as int,
        ) && fits(n as int, incy as int, old(y)@.len() as int) ==> forall|i: int|
            0 <= i < n ==> step.requires(
                (
                    old(x)@[#[trigger] position(n as int, incx as int, i)],
                    old(y)@[position(n as int, incy as int, i)],
                ),
            ),
    ensures
        ok == (rot_is_noop(n as int, incx as int, incy as int, identity) || (fits(
            n as int,
            incx as int,
            old(x)@.len() as int,
        ) && fits(n as int, incy as int, old(y)@.len() as int))),
        !ok || rot_is_noop(n as int, incx as int, incy as int, identity) ==> final(x)@ == old(x)@
            && final(y)@ == old(y)@,
        identity ==> ok && final(x)@ == old(x)@ && final(y)@ == old(y)@,
        ok && !rot_is_noop(n as int, incx as int, incy as int, identity) ==> rotated(
            step,
            n as int,
            old(x)@,
            incx as int,
            old(y)@,
            incy as int,
            final(x)@,
            final(y)@,
        ),
{
    if n <= 0 || identity || incx == 0 || incy == 0 {
        return true;
    }
    if !check_inc(n, x, incx) || !check_inc(n, y, incy) {
        return false;
    }
    let ghost x0 = x@;
    let ghost y0 = y@;
    let count: usize = n as usize;
    if incx == 1 && incy == 1 {
        let mut i: usize = 0;
        while i < count
            invariant
                count == n,
                incx == 1,
                incy == 1,
                i <= count,
                fits(n as int, incx as int, x0.len() as int),
                fits(n as int, incy as int, y0.len() as int),
                rotated_upto(step, n as int, i as int, x0, incx as int, y0, incy as int, x@, y@),
                forall|j: int|
                    0 <= j < n ==> step.requires(
                        (
                            x0[#[trigger] position(n as int, incx as int, j)],
                            y0[position(n as int, incy as int, j)],
                        ),
                    ),
            decreases count - i,
        {
            proof {
                lemma_position_in_bounds(n as int, incx as int, x0.len() as int, i as int);
                lemma_position_in_bounds(n as int, incy as int, y0.len() as int, i as int);
                lemma_position_fresh(n as int, incx as int, i as int);
                lemma_position_fresh(n as int, incy as int, i as int);
            }
            let out: (T, T) = step(x[i], y[i]);
            proof {
                lemma_rot_step(
                    step,
                    n as int,
                    i as int,
                    x0,
                    incx as int,
                    y0,
                    incy as int,
                    x@,
                    y@,
                    out,
                );
            }
            x[i] = out.0;
            y[i] = out.1;
            i += 1;
        }
        return true;
    }
    proof {
        assert(x@.len() == x.len() && y@.len() == y.len());
        lemma_position_in_bounds(n as int, incx as int, x0.len() as int, 0);
        lemma_position_in_bounds(n as int, incy as int, y0.len() as int, 0);
    }
    let mut ix: usize = get_first_index(count, incx);
    let mut iy: usize = get_first_index(count, incy);
    let mut k: usize = 0;
    while k < count
        invariant
            count == n,
            k <= count,
            incx != 0,
            incy != 0,
            fits(n as int, incx as int, x0.len() as int),
            fits(n as int, incy as int, y0.len() as int),
            k < count ==> ix == position(n as int, incx as int, k as int),
            k < count ==> iy == position(n as int, incy as int, k as int),
            rotated_upto(step, n as int, k as int, x0, incx as int, y0, incy as int, x@, y@),
            forall|j: int|
                0 <= j < n ==> step.requires(
                    (
                        x0[#[trigger] position(n as int, incx as int, j)],
                        y0[position(n as int, incy as int, j)],
                    ),
                ),
        decreases count - k,
    {
        proof {
            lemma_position_in_bounds(n as int, incx as int, x0.len() as int, k as int);
            lemma_position_in_bounds(n as int, incy as int, y0.len() as int, k as int);
            lemma_position_fresh(n as int, incx as int, k as int);
            lemma_position_fresh(n as int, incy as int, k as int);
        }
        let out: (T, T) = step(x[ix], y[iy]);
        proof {
            lemma_rot_step(step, n as int, k as int, x0, incx as int, y0, incy as int, x@, y@, out);
        }
        x[ix] = out.0;
        y[iy] = out.1;
        k += 1;
        if k < count {
            proof {
                lemma_position_in_bounds(n as int, incx as int, x0.len() as int, k as int);
                lemma_position_in_bounds(n as int, incy as int, y0.len() as int, k as int);
                lemma_position_next(n as int, incx as int, k as int - 1);
                lemma_position_next(n as int, incy as int, k as int - 1);
            }
            ix = next_index(ix, incx);
            iy = next_index(iy, incy);
        }
    }
    true
}

} // verus!
