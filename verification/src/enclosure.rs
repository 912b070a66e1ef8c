//! The grid of a device encloses the atoms, where no operation rounds.

use crate::cell_grid::{
    cell_size, cells_of, highest, least_normal, lowest, origin_of, Grid,
};
use crate::exact::{exact_difference, exact_quotient, exact_sum, lemma_order, num};
use crate::scalar::{difference, quotient, sum, Op, Scalar, Vec3};
use vstd::prelude::*;

verus! {

/// The limits of single precision enclose the coordinates, so that the least and the
/// greatest of them are found.
proof fn lemma_range(pos: Seq<Vec3>, d: int, k: int)
    requires
        0 <= k <= pos.len(),
        0 <= d < 3,
        forall|i: int| 0 <= i < k ==> !(#[trigger] pos[i])[d].nan(),
    ensures
        !lowest(pos, d, k).nan() && !highest(pos, d, k).nan(),
        forall|i: int|
            0 <= i < k ==> num(lowest(pos, d, k)) <= num((#[trigger] pos[i])[d]) <= num(
                highest(pos, d, k),
            ),
    decreases k,
{
    if k > 0 {
        lemma_range(pos, d, k - 1);
        let x: Scalar = pos[k - 1][d];
        assert(!pos[k - 1][d].nan());
        lemma_order(lowest(pos, d, k - 1), x);
        lemma_order(x, lowest(pos, d, k - 1));
        lemma_order(highest(pos, d, k - 1), x);
        lemma_order(x, highest(pos, d, k - 1));
    }
}

/// Every atom lies in the grid, with a whole cell to spare on either side, and a cell is
/// no smaller than the cutoff.
pub proof fn the_grid_surrounds_the_atoms<F: Fn(Op, Scalar, Scalar, Scalar) -> Scalar>(
    ar: F,
    grid: Grid,
    pos: Seq<Vec3>,
    cutoff: Scalar,
    d: int,
    i: int,
)
    requires
        0 <= d < 3,
        0 <= i < pos.len(),
        grid.surrounds(ar, pos, cutoff),
        !cutoff.nan(),
        num(cutoff) > 0real,
        forall|k: int| 0 <= k < pos.len() ==> !(#[trigger] pos[k])[d].nan(),
        ({
            let (low, high) = (
                lowest(pos, d, pos.len() as int),
                highest(pos, d, pos.len() as int),
            );
            let size = cell_size(cutoff);
            let end = sum(ar, high, size);
            let origin = difference(ar, low, size);
            &&& exact_difference(ar, low, size)
            &&& exact_sum(ar, high, size)
            &&& exact_difference(ar, end, origin)
            &&& exact_quotient(ar, difference(ar, end, origin), size)
        }),
        cells_of(ar, pos, cutoff, d) < i32::MAX,
    ensures
        ({
            let (size, at) = (num(grid.bin_size), num(pos[i][d]));
            let (first, n) = (num(grid.origin[d]), grid.n[d] as int as real);
            &&& size >= num(cutoff)
            &&& first + size <= at
            &&& at + size <= first + n * size
        }),
{
    let size: Scalar = cell_size(cutoff);
    least_normal_is_positive();
    lemma_order(cutoff, least_normal());
    lemma_range(pos, d, pos.len() as int);
    assert(grid.n[d] == cells_of(ar, pos, cutoff, d));
    let end: Scalar = sum(ar, highest(pos, d, pos.len() as int), size);
    let span: Scalar = difference(ar, end, origin_of(ar, pos, cutoff, d));
    let q: Scalar = quotient(ar, span, size);
    crate::exact::lemma_rounded(q);
    let (l, s): (real, real) = (num(span), num(size));
    crate::exact::lemma_divided(l, s);
    let (y, n): (real, real) = (l / s, grid.n[d] as int as real);
    let up: int = q.ceiling();
    assert(num(lowest(pos, d, pos.len() as int)) <= num(pos[i][d]));
    assert(l >= 0real);
    assert(grid.n[d] >= up);
    assert(n >= y);
    crate::geometry::lemma_grow_factor(s, y, n);
    crate::exact::lemma_mul_order(s, y, 1real);
    crate::exact::lemma_mul_order(s, n, 1real);
}

/// The least normal number of single precision is a positive number.
proof fn least_normal_is_positive()
    ensures
        !least_normal().nan(),
        num(least_normal()) > 0real,
{
    crate::exact::lemma_constants();
    let x: Scalar = least_normal();
    crate::scalar::lemma_pow2_fraction();
    assert(x.exponent() == 897 && x.fraction() == 0);
    vstd::arithmetic::power2::lemma_pow2_pos(896);
    vstd::arithmetic::mul::lemma_mul_strictly_positive(
        crate::scalar::FRACTION as int,
        vstd::arithmetic::power2::pow2(896) as int,
    );
    lemma_order(Scalar::zero(), x);
}

} // verus!
