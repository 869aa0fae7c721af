//! Strided copy: the logical elements of one vector view are written, in
//! logical order, over those of another.

use crate::stride::{
    check_inc, covered, first_index, fits, gap, get_first_index, lemma_position_in_bounds,
    lemma_position_next, lemma_resident_of_position, logical, next_index, occupied, position,
    resident,
};
use vstd::prelude::*;

verus! {

/// The destination buffer `y` after the `n` logical elements of the view
/// `(x, incx)` have been copied over those of the view `(y, incy)`: an
/// occupied index shows the source element of its resident, every other index
/// what it held before.
pub open spec fn copied<T>(n: int, x: Seq<T>, incx: int, y: Seq<T>, incy: int) -> Seq<T> {
    Seq::new(
        y.len(),
        |p: int|
            if occupied(n, incy, p) {
                x[position(n, incx, resident(n, incy, p))]
            } else {
                y[p]
            },
    )
}

/// The destination buffer after the first `k` steps of the copy.
spec fn copied_upto<T>(n: int, k: int, x: Seq<T>, incx: int, y: Seq<T>, incy: int) -> Seq<T> {
    Seq::new(
        y.len(),
        |p: int|
            if covered(n, incy, k, p) {
                x[position(
                    n,
                    incx,
                    if incy == 0 {
                        k - 1
                    } else {
                        resident(n, incy, p)
                    },
                )]
            } else {
                y[p]
            },
    )
}

/// Once all `n` steps are done the buffer is the copied one.
proof fn lemma_copied_upto_all<T>(n: int, x: Seq<T>, incx: int, y: Seq<T>, incy: int)
    ensures
        copied_upto(n, n, x, incx, y, incy) == copied(n, x, incx, y, incy),
{
    assert(copied_upto(n, n, x, incx, y, incy) =~= copied(n, x, incx, y, incy));
}

/// Step `k` of the copy writes source element `k` at the position of
/// destination element `k` and leaves the rest of the buffer as it was.
proof fn lemma_copy_step<T>(n: int, k: int, x: Seq<T>, incx: int, y: Seq<T>, incy: int)
    requires
        0 <= k < n,
        0 <= position(n, incy, k) < y.len(),
    ensures
        copied_upto(n, k + 1, x, incx, y, incy) == copied_upto(n, k, x, incx, y, incy).update(
            position(n, incy, k),
            x[position(n, incx, k)],
        ),
{
    let before = copied_upto(n, k, x, incx, y, incy);
    let after = copied_upto(n, k + 1, x, incx, y, incy);
    let at = position(n, incy, k);
    assert forall|p: int| 0 <= p < y.len() implies #[trigger] after[p] == before.update(
        at,
        x[position(n, incx, k)],
    )[p] by {
        if p == at {
            lemma_resident_of_position(n, incy, k);
        } else {
            if covered(n, incy, k + 1, p) {
                let i = choose|i: int| 0 <= i < k + 1 && #[trigger] position(n, incy, i) == p;
                assert(i < k);
                assert(incy != 0) by (nonlinear_arith)
                    requires
                        position(n, incy, i) != position(n, incy, k),
                        position(n, incy, i) == first_index(n, incy) + i * incy,
                        position(n, incy, k) == first_index(n, incy) + k * incy,
                ;
            }
        }
    }
    assert(after =~= before.update(at, x[position(n, incx, k)]));
}

/// Copies the `n` logical elements of the view `(x, incx)` over those of the
/// view `(y, incy)`, element `i` to element `i`, in increasing logical order.
///
/// Both views are validated before anything is written: the copy succeeds
/// exactly when both buffers can hold their view, and a failed copy leaves `y`
/// as it was. A count `n <= 0` always succeeds and writes nothing. The source
/// is never written.
pub fn copy<T: Copy>(n: isize, x: &[T], incx: isize, y: &mut [T], incy: isize) -> (ok: bool)
    ensures
        ok == (fits(n as int, incx as int, x@.len() as int) && fits(
            n as int,
            incy as int,
            old(y)@.len() as int,
        )),
        ok ==> final(y)@ == copied(n as int, x@, incx as int, old(y)@, incy as int),
        !ok ==> final(y)@ == old(y)@,
        n <= 0 ==> ok && final(y)@ == old(y)@,
{
    if !check_inc(n, x, incx) || !check_inc(n, y, incy) {
        return false;
    }
    let ghost y0 = y@;
    if n <= 0 {
        assert(copied(n as int, x@, incx as int, y0, incy as int) =~= y0);
        return true;
    }
    let count: usize = n as usize;
    assert(copied_upto(n as int, 0, x@, incx as int, y0, incy as int) =~= y0);
    if incx == 1 && incy == 1 {
        let mut i: usize = 0;
        while i < count
            invariant
                count == n,
                incx == 1,
                incy == 1,
                i <= count,
                fits(n as int, incx as int, x@.len() as int),
                fits(n as int, incy as int, y0.len() as int),
                y@ == copied_upto(n as int, i as int, x@, incx as int, y0, incy as int),
            decreases count - i,
        {
            proof {
                lemma_position_in_bounds(n as int, incx as int, x@.len() as int, i as int);
                lemma_position_in_bounds(n as int, incy as int, y0.len() as int, i as int);
                lemma_copy_step(n as int, i as int, x@, incx as int, y0, incy as int);
            }
            y[i] = x[i];
            i += 1;
        }
        return true;
    }
    proof {
        lemma_position_in_bounds(n as int, incx as int, x@.len() as int, 0);
        lemma_position_in_bounds(n as int, incy as int, y0.len() as int, 0);
        assert(x@.len() == x.len() && y@.len() == y.len());
    }
    let mut ix: usize = get_first_index(count, incx);
    let mut iy: usize = get_first_index(count, incy);
    let mut k: usize = 0;
    while k < count
        invariant
            count == n,
            k <= count,
            fits(n as int, incx as int, x@.len() as int),
            fits(n as int, incy as int, y0.len() as int),
            k < count ==> ix == position(n as int, incx as int, k as int),
            k < count ==> iy == position(n as int, incy as int, k as int),
            y@ == copied_upto(n as int, k as int, x@, incx as int, y0, incy as int),
        decreases count - k,
    {
        proof {
            lemma_position_in_bounds(n as int, incx as int, x@.len() as int, k as int);
            lemma_position_in_bounds(n as int, incy as int, y0.len() as int, k as int);
            lemma_copy_step(n as int, k as int, x@, incx as int, y0, incy as int);
        }
        y[iy] = x[ix];
        k += 1;
        if k < count {
            proof {
                lemma_position_in_bounds(n as int, incx as int, x@.len() as int, k as int);
                lemma_position_in_bounds(n as int, incy as int, y0.len() as int, k as int);
                lemma_position_next(n as int, incx as int, k as int - 1);
                lemma_position_next(n as int, incy as int, k as int - 1);
            }
            ix = next_index(ix, incx);
            iy = next_index(iy, incy);
        }
    }
    proof {
        lemma_copied_upto_all(n as int, x@, incx as int, y0, incy as int);
    }
    true
}

/// What a copy leaves behind, told by logical elements: the destination view
/// then reads as the source view does. A destination stride of zero keeps only
/// the last element written, so the law is stated for the other strides and
/// for views of at most one element.
pub proof fn lemma_copied_logical<T>(n: int, x: Seq<T>, incx: int, y: Seq<T>, incy: int)
    requires
        fits(n, incy, y.len() as int),
        incy != 0 || n <= 1,
    ensures
        logical(n, copied(n, x, incx, y, incy), incy) == logical(n, x, incx),
{
    let after = copied(n, x, incx, y, incy);
    assert forall|i: int| 0 <= i < n implies #[trigger] logical(n, after, incy)[i] == logical(
        n,
        x,
        incx,
    )[i] by {
        lemma_position_in_bounds(n, incy, y.len() as int, i);
        lemma_resident_of_position(n, incy, i);
        assert(occupied(n, incy, position(n, incy, i)));
    }
    assert(logical(n, after, incy) =~= logical(n, x, incx));
}

/// Round trip: after `x` is copied into `y`, and `y` into a third buffer `z`
/// read with the stride it was written with, the view of `z` reads as the view
/// of `x` does. The intermediate and the final stride are not zero, unless the
/// views hold at most one element.
pub proof fn lemma_copy_round_trip<T>(
    n: int,
    x: Seq<T>,
    incx: int,
    y: Seq<T>,
    incy: int,
    z: Seq<T>,
    incz: int,
)
    requires
        fits(n, incy, y.len() as int),
        fits(n, incz, z.len() as int),
        n <= 1 || (incy != 0 && incz != 0),
    ensures
        logical(n, copied(n, copied(n, x, incx, y, incy), incy, z, incz), incz) == logical(
            n,
            x,
            incx,
        ),
{
    let mid = copied(n, x, incx, y, incy);
    lemma_copied_logical(n, x, incx, y, incy);
    lemma_copied_logical(n, mid, incy, z, incz);
}

/// Stride-direction symmetry: on buffers of exactly `n` elements, a copy with
/// both strides -1 over the reversed buffers gives the reverse of what a copy
/// with both strides 1 gives, so that the two results agree logical element
/// by logical element.
pub proof fn lemma_copy_reversed<T>(n: int, x: Seq<T>, y: Seq<T>)
    requires
        x.len() == n,
        y.len() == n,
    ensures
        copied(n, x.reverse(), -1, y.reverse(), -1) == copied(n, x, 1, y, 1).reverse(),
        logical(n, copied(n, x.reverse(), -1, y.reverse(), -1), -1) == logical(
            n,
            copied(n, x, 1, y, 1),
            1,
        ),
{
    let forward = copied(n, x, 1, y, 1);
    let backward = copied(n, x.reverse(), -1, y.reverse(), -1);
    assert forall|p: int| 0 <= p < n implies #[trigger] backward[p] == forward.reverse()[p] by {
        assert(position(n, -1, n - 1 - p) == p);
        assert(position(n, 1, n - 1 - p) == n - 1 - p);
        assert(occupied(n, -1, p));
        assert(occupied(n, 1, n - 1 - p));
    }
    assert(backward =~= forward.reverse());
    assert(x.reverse().len() == n && y.reverse().len() == n);
    assert(fits(n, 1, n) && fits(n, -1, n)) by {
        assert(gap(1) == 1 && gap(-1) == 1);
    }
    lemma_copied_logical(n, x, 1, y, 1);
    lemma_copied_logical(n, x.reverse(), -1, y.reverse(), -1);
    assert forall|i: int| 0 <= i < n implies #[trigger] logical(n, x.reverse(), -1)[i] == logical(
        n,
        x,
        1,
    )[i] by {
        assert(position(n, -1, i) == n - 1 - i);
        assert(position(n, 1, i) == i);
    }
    assert(logical(n, x.reverse(), -1) =~= logical(n, x, 1));
}

} // verus!
