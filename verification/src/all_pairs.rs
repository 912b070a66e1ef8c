//! The neighbour list against the list of all pairs.

use crate::exact::{lemma_order, num};
use crate::neighbor::{axis_cell, cell_of, cells_of, lemma_cell_bound, Neighbor};
use crate::neighbor_list::{
    distance_squared, half_list_finds_each_pair_once, reached, row, row_is_exact,
};
use crate::scalar::{Op, Scalar, Vec3};
use crate::stencil::{
    cell_offset, forward_is_positive_half, gap, gap_squared, grid_ok, lemma_offset_fits,
    near_offset, positive, stencil_is_exact, stencil_is_symmetric, stencil_of, within_cutoff,
};
use vstd::prelude::*;

verus! {

/// The cell that an atom is put into along axis `d` is the one that it lies in.
pub open spec fn lies_in_its_cell<F: Fn(Op, Scalar, Scalar, Scalar) -> Scalar>(
    ar: F,
    neighbor: Neighbor,
    pos: Vec3,
    d: int,
) -> bool {
    let c: real = axis_cell(ar, neighbor, pos, d) as real;
    let low: real = num(neighbor.bin_origin[d]) + c * num(neighbor.bin_size[d]);
    low <= num(pos[d]) < low + num(neighbor.bin_size[d])
}

/// The square of the distance of two points.
pub open spec fn real_distance_squared(a: Vec3, b: Vec3) -> real {
    let x: real = num(a[0]) - num(b[0]);
    let y: real = num(a[1]) - num(b[1]);
    let z: real = num(a[2]) - num(b[2]);
    x * x + y * y + z * z
}

/// The square of the distance over so many whole cells.
pub open spec fn real_gap_squared(size: Vec3, a: u32, b: u32, c: u32) -> real {
    let x: real = a as int as real * num(size[0]);
    let y: real = b as int as real * num(size[1]);
    let z: real = c as int as real * num(size[2]);
    x * x + y * y + z * z
}

/// Two coordinates in cells that lie apart are apart by at least the cells between
/// them, and not by more cells than their distance spans.
proof fn lemma_axis(x: real, y: real, origin: real, size: real, a: int, b: int, most: int)
    requires
        size > 0real,
        origin + a as real * size <= x < origin + a as real * size + size,
        origin + b as real * size <= y < origin + b as real * size + size,
        0 <= a <= i32::MAX,
        0 <= b <= i32::MAX,
        most >= 0,
        (x - y) * (x - y) < (most as real * size) * (most as real * size),
    ensures
        ({
            let g: real = gap(b - a) as int as real * size;
            g * g <= (x - y) * (x - y)
        }),
        -most <= b - a <= most,
{
    let d: int = b - a;
    let e: real = d as real;
    let g: int = gap(d) as int;
    let t: real = y - x;
    let m: real = most as real;
    assert(b as real == a as real + e);
    assert((a as real + e) * size == a as real * size + e * size) by (nonlinear_arith);
    assert(e * size - size < t && t < e * size + size);
    assert(t * t == (x - y) * (x - y)) by (nonlinear_arith)
        requires
            t == y - x,
    ;
    if d > 1 {
        let h: real = g as real;
        assert(h == e - 1real);
        assert(h * size == e * size - size) by (nonlinear_arith)
            requires
                h == e - 1real,
        ;
        assert(0real <= h * size) by (nonlinear_arith)
            requires
                h >= 0real,
                size > 0real,
        ;
        lemma_squares_grow(h * size, t);
    } else if d < -1 {
        let h: real = g as real;
        assert(h == -e - 1real);
        assert(h * size == -(e * size) - size) by (nonlinear_arith)
            requires
                h == -e - 1real,
        ;
        assert(0real <= h * size) by (nonlinear_arith)
            requires
                h >= 0real,
                size > 0real,
        ;
        lemma_squares_grow(h * size, -t);
        assert((-t) * (-t) == t * t) by (nonlinear_arith);
    } else {
        assert(g == 0);
        assert((0real * size) * (0real * size) <= t * t) by (nonlinear_arith);
    }
    assert(0real <= m * size) by (nonlinear_arith)
        requires
            m >= 0real,
            size > 0real,
    ;
    if d > most {
        assert(m * size <= e * size - size) by (nonlinear_arith)
            requires
                e >= m + 1real,
                size > 0real,
        ;
        lemma_squares_grow(m * size, t);
    }
    if d < -most {
        assert(m * size <= -(e * size) - size) by (nonlinear_arith)
            requires
                e <= -m - 1real,
                size > 0real,
        ;
        lemma_squares_grow(m * size, -t);
        assert((-t) * (-t) == t * t) by (nonlinear_arith);
    }
}

proof fn lemma_squares_grow(a: real, b: real)
    requires
        0real <= a <= b,
    ensures
        a * a <= b * b,
{
    assert(a * a <= b * b) by (nonlinear_arith)
        requires
            0real <= a <= b,
    ;
}

proof fn lemma_square_is_natural(a: real)
    ensures
        a * a >= 0real,
{
    assert(a * a >= 0real) by (nonlinear_arith);
}

/// What the grid has to be for the list to miss no pair: bins of some length, a
/// stencil that was built for the cutoff, and enough layers for it.
pub open spec fn grid_covers<F: Fn(Op, Scalar, Scalar, Scalar) -> Scalar>(
    ar: F,
    neighbor: Neighbor,
    layers: [i32; 3],
    cutoff_sq: Scalar,
) -> bool {
    &&& neighbor.grid_valid()
    &&& grid_ok(neighbor.bin_count, layers)
    &&& !cutoff_sq.nan()
    &&& neighbor.bin_stencil@ == stencil_of(
        within_cutoff(ar, neighbor.bin_size, cutoff_sq),
        neighbor.bin_count,
        layers,
    )
    &&& neighbor.bin_stencil_self == neighbor.bin_stencil@.contains(0)
    &&& forall|d: int|
        0 <= d < 3 ==> {
            let span = layers[d] as real * num(#[trigger] neighbor.bin_size[d]);
            num(neighbor.bin_size[d]) > 0real && num(cutoff_sq) <= span * span
        }
}

/// The list is built without rounding for two positions: both lie in the cells
/// they are put into, and their distance and that of their cells are exact.
pub open spec fn pair_is_exact<F: Fn(Op, Scalar, Scalar, Scalar) -> Scalar>(
    ar: F,
    neighbor: Neighbor,
    a: Vec3,
    b: Vec3,
) -> bool {
    let gx = gap(axis_cell(ar, neighbor, b, 0) - axis_cell(ar, neighbor, a, 0));
    let gy = gap(axis_cell(ar, neighbor, b, 1) - axis_cell(ar, neighbor, a, 1));
    let gz = gap(axis_cell(ar, neighbor, b, 2) - axis_cell(ar, neighbor, a, 2));
    let between = gap_squared(ar, neighbor.bin_size, gx, gy, gz);
    let apart = distance_squared(ar, a, b);
    &&& forall|d: int| 0 <= d < 3 ==> #[trigger] lies_in_its_cell(ar, neighbor, a, d)
    &&& forall|d: int| 0 <= d < 3 ==> #[trigger] lies_in_its_cell(ar, neighbor, b, d)
    &&& !apart.nan() && num(apart) == real_distance_squared(a, b)
    &&& !between.nan() && num(between) == real_gap_squared(neighbor.bin_size, gx, gy, gz)
}

/// Two positions that are closer than the cutoff lie in cells that the stencil
/// connects.
pub proof fn close_atoms_lie_in_near_cells<F: Fn(Op, Scalar, Scalar, Scalar) -> Scalar>(
    ar: F,
    neighbor: Neighbor,
    layers: [i32; 3],
    cutoff_sq: Scalar,
    a: Vec3,
    b: Vec3,
)
    requires
        grid_covers(ar, neighbor, layers, cutoff_sq),
        pair_is_exact(ar, neighbor, a, b),
        distance_squared(ar, a, b).below(cutoff_sq),
    ensures
        exists|o: i32| #[trigger]
            neighbor.bin_stencil@.contains(o) && o == cell_of(ar, neighbor, b) - cell_of(
                ar,
                neighbor,
                a,
            ),
{
    let count: [i32; 3] = neighbor.bin_count;
    let size: Vec3 = neighbor.bin_size;
    let (ax, ay, az): (int, int, int) = (
        axis_cell(ar, neighbor, a, 0),
        axis_cell(ar, neighbor, a, 1),
        axis_cell(ar, neighbor, a, 2),
    );
    let (bx, by, bz): (int, int, int) = (
        axis_cell(ar, neighbor, b, 0),
        axis_cell(ar, neighbor, b, 1),
        axis_cell(ar, neighbor, b, 2),
    );
    let (x, y, z): (real, real, real) = (
        num(a[0]) - num(b[0]),
        num(a[1]) - num(b[1]),
        num(a[2]) - num(b[2]),
    );
    lemma_order(distance_squared(ar, a, b), cutoff_sq);
    lemma_square_is_natural(x);
    lemma_square_is_natural(y);
    lemma_square_is_natural(z);
    assert(lies_in_its_cell(ar, neighbor, a, 0) && lies_in_its_cell(ar, neighbor, b, 0));
    assert(lies_in_its_cell(ar, neighbor, a, 1) && lies_in_its_cell(ar, neighbor, b, 1));
    assert(lies_in_its_cell(ar, neighbor, a, 2) && lies_in_its_cell(ar, neighbor, b, 2));
    assert(num(size[0]) > 0real && num(size[1]) > 0real && num(size[2]) > 0real);
    lemma_axis(
        num(a[0]),
        num(b[0]),
        num(neighbor.bin_origin[0]),
        num(size[0]),
        ax,
        bx,
        layers[0] as int,
    );
    lemma_axis(
        num(a[1]),
        num(b[1]),
        num(neighbor.bin_origin[1]),
        num(size[1]),
        ay,
        by,
        layers[1] as int,
    );
    lemma_axis(
        num(a[2]),
        num(b[2]),
        num(neighbor.bin_origin[2]),
        num(size[2]),
        az,
        bz,
        layers[2] as int,
    );
    let near: spec_fn(u32, u32, u32) -> bool = within_cutoff(ar, size, cutoff_sq);
    let between: Scalar = gap_squared(ar, size, gap(bx - ax), gap(by - ay), gap(bz - az));
    lemma_order(between, cutoff_sq);
    assert(near(gap(bx - ax), gap(by - ay), gap(bz - az)));
    let o: int = cell_offset(count, bx - ax, by - ay, bz - az);
    let m: int = count[1] * count[2];
    let k: int = count[2] as int;
    assert((bx - ax) * m + (by - ay) * k + (bz - az) == (bx * m + by * k + bz) - (ax * m + ay * k
        + az)) by (nonlinear_arith);
    assert(near_offset(near, count, layers, o, bx - ax, by - ay, bz - az));
    lemma_offset_fits(count, layers, bx - ax, by - ay, bz - az);
    stencil_is_exact(near, count, layers, o as i32);
    assert(neighbor.bin_stencil@.contains(o as i32));
}

/// A full list misses no pair and invents none: two different atoms list each
/// other exactly where they are within their cutoff, whatever cells they are in.
pub proof fn full_list_is_all_pairs<F: Fn(Op, Scalar, Scalar, Scalar) -> Scalar>(
    ar: F,
    neighbor: Neighbor,
    layers: [i32; 3],
    cutoff_sq: Scalar,
    pos: Seq<Vec3>,
    p: spec_fn(int, int) -> bool,
    i: int,
    j: u32,
)
    requires
        grid_covers(ar, neighbor, layers, cutoff_sq),
        0 <= i < pos.len() <= u32::MAX,
        j < pos.len(),
        pair_is_exact(ar, neighbor, pos[i], pos[j as int]),
        p(i, j as int) ==> distance_squared(ar, pos[i], pos[j as int]).below(cutoff_sq),
    ensures
        ({
            let cells = cells_of(ar, neighbor, pos, pos.len() as int);
            let list = row(
                cells,
                neighbor.bin_stencil@,
                neighbor.bin_stencil_self,
                false,
                p,
                i,
            );
            &&& list.no_duplicates()
            &&& list.contains(j) <==> j != i && p(i, j as int)
        }),
{
    let cells: Seq<u32> = cells_of(ar, neighbor, pos, pos.len() as int);
    let full: Seq<i32> = neighbor.bin_stencil@;
    let near: spec_fn(u32, u32, u32) -> bool = within_cutoff(ar, neighbor.bin_size, cutoff_sq);
    stencil_is_exact(near, neighbor.bin_count, layers, 0);
    row_is_exact(cells, full, neighbor.bin_stencil_self, false, p, i, j);
    if p(i, j as int) {
        close_atoms_lie_in_near_cells(ar, neighbor, layers, cutoff_sq, pos[i], pos[j as int]);
        lemma_cell_bound(ar, neighbor, pos[i]);
        lemma_cell_bound(ar, neighbor, pos[j as int]);
        let o: i32 = choose|o: i32| #[trigger]
            full.contains(o) && o == cell_of(ar, neighbor, pos[j as int]) - cell_of(
                ar,
                neighbor,
                pos[i],
            );
        let m: int = choose|m: int| 0 <= m < full.len() && full[m] == o;
        assert(full[m] == cells[j as int] - cells[i]);
        if o != 0 {
            assert(reached(
                full,
                false,
                cells[i] as int,
                cells[j as int] as int,
                full.len() as int,
            ));
        }
    }
}

/// A half list misses no pair and invents none: of two different atoms exactly one
/// lists the other where they are within their cutoff, and none where they are not.
pub proof fn half_list_is_all_pairs<F: Fn(Op, Scalar, Scalar, Scalar) -> Scalar>(
    ar: F,
    neighbor: Neighbor,
    layers: [i32; 3],
    cutoff_sq: Scalar,
    pos: Seq<Vec3>,
    p: spec_fn(int, int) -> bool,
    i: u32,
    j: u32,
)
    requires
        grid_covers(ar, neighbor, layers, cutoff_sq),
        neighbor.bin_stencil_forward@ == positive(neighbor.bin_stencil@),
        i < pos.len() <= u32::MAX,
        j < pos.len(),
        i != j,
        pair_is_exact(ar, neighbor, pos[i as int], pos[j as int]),
        p(i as int, j as int) == p(j as int, i as int),
        p(i as int, j as int) ==> distance_squared(ar, pos[i as int], pos[j as int]).below(
            cutoff_sq,
        ),
    ensures
        ({
            let cells = cells_of(ar, neighbor, pos, pos.len() as int);
            let stencil = neighbor.bin_stencil_forward@;
            let has_self = neighbor.bin_stencil_self;
            let ri = row(cells, stencil, has_self, true, p, i as int);
            let rj = row(cells, stencil, has_self, true, p, j as int);
            &&& p(i as int, j as int) ==> ri.contains(j) != rj.contains(i)
            &&& !p(i as int, j as int) ==> !ri.contains(j) && !rj.contains(i)
        }),
{
    let cells: Seq<u32> = cells_of(ar, neighbor, pos, pos.len() as int);
    let full: Seq<i32> = neighbor.bin_stencil@;
    let near: spec_fn(u32, u32, u32) -> bool = within_cutoff(ar, neighbor.bin_size, cutoff_sq);
    stencil_is_exact(near, neighbor.bin_count, layers, 0);
    stencil_is_symmetric(near, neighbor.bin_count, layers);
    if p(i as int, j as int) {
        close_atoms_lie_in_near_cells(
            ar,
            neighbor,
            layers,
            cutoff_sq,
            pos[i as int],
            pos[j as int],
        );
        lemma_cell_bound(ar, neighbor, pos[i as int]);
        lemma_cell_bound(ar, neighbor, pos[j as int]);
        let o: i32 = choose|o: i32| #[trigger]
            full.contains(o) && o == cell_of(ar, neighbor, pos[j as int]) - cell_of(
                ar,
                neighbor,
                pos[i as int],
            );
        assert(full.contains(o) && o == cells[j as int] - cells[i as int]);
        half_list_finds_each_pair_once(cells, full, p, i, j);
    } else {
        let stencil: Seq<i32> = positive(full);
        assert forall|k: int| 0 <= k < stencil.len() implies #[trigger] stencil[k] > 0 by {
            assert(stencil.contains(stencil[k]));
            forward_is_positive_half(full, stencil[k]);
        }
        forward_is_positive_half(full, 0);
        row_is_exact(cells, stencil, neighbor.bin_stencil_self, true, p, i as int, j);
        row_is_exact(cells, stencil, neighbor.bin_stencil_self, true, p, j as int, i);
    }
}

} // verus!
