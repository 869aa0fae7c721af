//! Strided addressing: where the logical elements of a vector view live in its
//! buffer, and when a buffer is long enough to hold them.

use vstd::prelude::*;

verus! {

/// The distance `|inc|` between two consecutive logical elements.
pub open spec fn gap(inc: int) -> int {
    if inc < 0 {
        -inc
    } else {
        inc
    }
}

/// Whether a buffer of `len` elements can hold the `n` logical elements of a
/// view with stride `inc`: nothing is asked of an empty view, and a view of
/// `n >= 1` elements needs `1 + (n - 1) * |inc|` of them.
pub open spec fn fits(n: int, inc: int, len: int) -> bool {
    n <= 0 || len >= 1 + (n - 1) * gap(inc)
}

/// The physical index of logical element 0: index 0 for a stride that is not
/// negative, and `(n - 1) * |inc|` for a negative one, so that the walk runs
/// back towards index 0. An empty view starts at index 0 whatever its stride.
pub open spec fn first_index(n: int, inc: int) -> int {
    if inc < 0 && n >= 1 {
        (n - 1) * (-inc)
    } else {
        0
    }
}

/// The physical index of logical element `i` of a view of `n` elements.
pub open spec fn position(n: int, inc: int, i: int) -> int {
    first_index(n, inc) + i * inc
}

/// Whether one of the first `k` logical elements of a view of `n` elements
/// lives at physical index `p`.
pub open spec fn covered(n: int, inc: int, k: int, p: int) -> bool {
    exists|i: int| 0 <= i < k && #[trigger] position(n, inc, i) == p
}

/// Whether a logical element of the view lives at physical index `p`.
pub open spec fn occupied(n: int, inc: int, p: int) -> bool {
    covered(n, inc, n, p)
}

/// The logical element that an occupied physical index `p` shows once a walk
/// over the view is over. With a stride other than zero it is the only element
/// that lives there. With stride zero every element lives at index 0, and the
/// last one visited, `n - 1`, is the one that stays.
pub open spec fn resident(n: int, inc: int, p: int) -> int {
    if inc > 0 {
        p / inc
    } else if inc < 0 {
        n - 1 - p / (-inc)
    } else {
        n - 1
    }
}

/// The `n` logical elements of a view, in logical order.
pub open spec fn logical<T>(n: int, buf: Seq<T>, inc: int) -> Seq<T> {
    Seq::new(
        if n > 0 {
            n as nat
        } else {
            0
        },
        |i: int| buf[position(n, inc, i)],
    )
}

/// Computes `|inc|`, which always fits in a `usize`.
pub fn stride_gap(inc: isize) -> (g: usize)
    ensures
        g == gap(inc as int),
{
    if inc >= 0 {
        inc as usize
    } else {
        let below: isize = -(inc + 1);
        (below as usize) + 1
    }
}

/// For a positive gap, `count` gaps fit below `room` exactly when `count` is at
/// most the whole quotient of `room` by the gap.
proof fn lemma_gaps_fit(count: int, g: int, room: int)
    by (nonlinear_arith)
    requires
        count >= 0,
        g > 0,
        room >= 0,
    ensures
        (count <= room / g) <==> (count * g <= room),
{
    assert(room == g * (room / g) + room % g && 0 <= room % g < g) by {
        vstd::arithmetic::div_mod::lemma_fundamental_div_mod(room, g);
        vstd::arithmetic::div_mod::lemma_mod_bound(room, g);
    }
    if count <= room / g {
        assert(count * g <= (room / g) * g);
    } else {
        assert(count >= room / g + 1);
        assert(count * g >= (room / g + 1) * g);
    }
}

/// Every logical element of a view that fits lies inside the buffer.
pub proof fn lemma_position_in_bounds(n: int, inc: int, len: int, i: int)
    by (nonlinear_arith)
    requires
        0 <= i < n,
        fits(n, inc, len),
    ensures
        0 <= position(n, inc, i) <= (n - 1) * gap(inc) < len,
{
}

/// Each logical element lies one stride after the one before it.
pub proof fn lemma_position_next(n: int, inc: int, i: int)
    by (nonlinear_arith)
    ensures
        position(n, inc, i + 1) == position(n, inc, i) + inc,
{
}

/// With a stride other than zero, two logical elements never share a
/// physical index.
pub proof fn lemma_position_injective(n: int, inc: int, i: int, j: int)
    by (nonlinear_arith)
    requires
        inc != 0,
        position(n, inc, i) == position(n, inc, j),
    ensures
        i == j,
{
}

/// With a stride other than zero, the walk has not been at the position of
/// logical element `k` before it gets to that element.
pub proof fn lemma_position_fresh(n: int, inc: int, k: int)
    requires
        inc != 0,
    ensures
        !covered(n, inc, k, position(n, inc, k)),
{
    if covered(n, inc, k, position(n, inc, k)) {
        let i = choose|i: int| 0 <= i < k && #[trigger] position(n, inc, i) == position(n, inc, k);
        lemma_position_injective(n, inc, i, k);
    }
}

/// The element that stays at the physical index of logical element `i`: `i`
/// itself with a stride other than zero, the last element with stride zero.
pub proof fn lemma_resident_of_position(n: int, inc: int, i: int)
    requires
        0 <= i < n,
    ensures
        resident(n, inc, position(n, inc, i)) == if inc == 0 {
            n - 1
        } else {
            i
        },
{
    if inc > 0 {
        vstd::arithmetic::div_mod::lemma_div_multiples_vanish(i, inc);
    } else if inc < 0 {
        assert(position(n, inc, i) == (n - 1 - i) * (-inc)) by (nonlinear_arith)
            requires
                inc < 0,
                n >= 1,
                position(n, inc, i) == (n - 1) * (-inc) + i * inc,
        ;
        vstd::arithmetic::div_mod::lemma_div_multiples_vanish(n - 1 - i, -inc);
    }
}

/// The resident of an occupied physical index is the last logical element of
/// the view that lives there: a walk in increasing logical order visits the
/// index for the last time when it gets to that element.
pub proof fn lemma_resident_is_last(n: int, inc: int, p: int)
    requires
        occupied(n, inc, p),
    ensures
        0 <= resident(n, inc, p) < n,
        position(n, inc, resident(n, inc, p)) == p,
        forall|j: int|
            0 <= j < n && #[trigger] position(n, inc, j) == p ==> j <= resident(n, inc, p),
{
    let i = choose|i: int| 0 <= i < n && #[trigger] position(n, inc, i) == p;
    lemma_resident_of_position(n, inc, i);
    assert forall|j: int| 0 <= j < n && #[trigger] position(n, inc, j) == p implies j <= resident(
        n,
        inc,
        p,
    ) by {
        lemma_resident_of_position(n, inc, j);
    }
    if inc == 0 {
        assert(position(n, inc, n - 1) == 0 && position(n, inc, i) == 0) by (nonlinear_arith)
            requires
                inc == 0,
                position(n, inc, n - 1) == first_index(n, inc) + (n - 1) * inc,
                position(n, inc, i) == first_index(n, inc) + i * inc,
                first_index(n, inc) == 0,
        ;
    }
}

/// The validator: tells whether the buffer `x` can hold the `n` logical
/// elements of a view with stride `inc`. The answer is computed without
/// forming `(n - 1) * |inc|`, so no count or stride can overflow it.
pub fn check_inc<T>(n: isize, x: &[T], inc: isize) -> (valid: bool)
    ensures
        valid == fits(n as int, inc as int, x@.len() as int),
{
    if n <= 0 {
        return true;
    }
    let len: usize = x.len();
    if len == 0 {
        assert((n - 1) * gap(inc as int) >= 0) by (nonlinear_arith)
            requires
                n >= 1,
                gap(inc as int) >= 0,
        ;
        return false;
    }
    let g: usize = stride_gap(inc);
    if g == 0 {
        assert((n - 1) * gap(inc as int) == 0) by (nonlinear_arith)
            requires
                gap(inc as int) == 0,
        ;
        return true;
    }
    proof {
        lemma_gaps_fit(n - 1, g as int, len - 1);
    }
    (n as usize) - 1 <= (len - 1) / g
}

/// The physical index at which a walk over a view of `n` elements with stride
/// `inc` starts. The index must be representable, which it is for every view
/// that fits some buffer.
pub fn get_first_index(n: usize, inc: isize) -> (start: usize)
    requires
        first_index(n as int, inc as int) <= usize::MAX,
    ensures
        start == first_index(n as int, inc as int),
{
    if inc < 0 && n >= 1 {
        let g: usize = stride_gap(inc);
        (n - 1) * g
    } else {
        0
    }
}

/// Moves a walk's cursor by one stride, from one logical element to the next.
/// The caller shows that the next element exists, so the cursor stays inside
/// the buffer and cannot wrap.
pub fn next_index(at: usize, inc: isize) -> (next: usize)
    requires
        0 <= at + inc <= usize::MAX,
    ensures
        next == at + inc,
{
    if inc > 0 {
        at + stride_gap(inc)
    } else {
        at - stride_gap(inc)
    }
}

} // verus!
