//! The exchange along all three axes of a grid of processes: together they keep every
//! atom, and each atom ends with the process whose part of the box holds it.

use crate::atom::Atom;
use crate::atom_data::{AtomData, AtomDataRegistry};
use crate::bond::lemma_int_word;
use crate::conserve::{
    above, bodies, exchange_conserves_atoms, exchanged_atoms_are_no_ghosts, gathered,
    lemma_gathered, lemma_total_alike, lemma_total_sum, no_ghosts, stages_of, total, under, Body, Stages,
};
use crate::domain::{is_part, BoundaryType, Domain, DomainConfig};
use crate::exact::{
    exact_product, exact_quotient, exact_sum, lemma_divided, lemma_mul_order, lemma_whole, num,
};
use crate::exchange::{elsewhere, lemma_leavers_at, leaving_indices, on_side, side};
use crate::parts::{atoms_go_to_their_owners, exact_side, Parts};
use crate::scalar::{int_word, product, quotient, Op, Scalar};
use crate::sweep::{lemma_sweep, sweep};
use crate::transport::matching;
use vstd::multiset::*;
use vstd::prelude::*;

verus! {

/// The parts of the box along each axis.
pub struct Grid {
    pub x: Parts,
    pub y: Parts,
    pub z: Parts,
}

impl Grid {
    pub open spec fn axis(self, d: int) -> Parts {
        if d == 0 {
            self.x
        } else if d == 1 {
            self.y
        } else {
            self.z
        }
    }

    /// There is a process at this place.
    pub open spec fn has(self, x: int, y: int, z: int) -> bool {
        0 <= x < self.x.count && 0 <= y < self.y.count && 0 <= z < self.z.count
    }

    pub open spec fn valid(self) -> bool {
        self.x.valid() && self.y.valid() && self.z.valid()
    }
}

/// The place of a process along axis `d`.
pub open spec fn place_along(d: int, x: int, y: int, z: int) -> int {
    if d == 0 {
        x
    } else if d == 1 {
        y
    } else {
        z
    }
}

/// The row of processes along axis `d` through a place.
pub open spec fn row_through<D: AtomData>(
    grid: Grid,
    stages: spec_fn(int, int, int) -> Stages<D>,
    d: int,
    x: int,
    y: int,
    z: int,
) -> Seq<Stages<D>> {
    Seq::new(
        grid.axis(d).count as nat,
        |k: int|
            if d == 0 {
                stages(k, y, z)
            } else if d == 1 {
                stages(x, k, z)
            } else {
                stages(x, y, k)
            },
    )
}

/// Each process of a row did its part of the exchange; a row of one does nothing.
pub open spec fn row_exchanged<D: AtomData, F: Fn(Op, Scalar, Scalar, Scalar) -> Scalar>(
    ar: F,
    dim: int,
    row: Seq<Stages<D>>,
    periodic: bool,
) -> bool {
    if row.len() == 1 {
        row[0].after == row[0].before
    } else {
        &&& forall|p: int| 0 <= p < row.len() ==> (#[trigger] row[p]).ready(ar)
        &&& forall|p: int, q: int|
            0 <= p < row.len() && 0 <= q < row.len() ==> matching(
                (#[trigger] row[q]).before.1.stores@,
                (#[trigger] row[p]).before.1.stores@,
            )
        &&& forall|p: int|
            0 <= p < row.len() ==> (#[trigger] row[p]).exchanged(
                ar,
                dim,
                stages_of(row, above(p, row.len() as int, periodic)),
                stages_of(row, under(p, row.len() as int, periodic)),
            )
    }
}

/// The exchange took place along every row of axis `dim`.
pub open spec fn axis_exchanged<D: AtomData, F: Fn(Op, Scalar, Scalar, Scalar) -> Scalar>(
    ar: F,
    grid: Grid,
    stages: spec_fn(int, int, int) -> Stages<D>,
    dim: int,
) -> bool {
    forall|x: int, y: int, z: int| #[trigger]
        grid.has(x, y, z) ==> row_exchanged(
            ar,
            dim,
            row_through(grid, stages, dim, x, y, z),
            grid.axis(dim).periodic,
        )
}

/// Nothing leaves a row at its ends, unless the axis is periodic.
pub open spec fn row_keeps<D: AtomData, F: Fn(Op, Scalar, Scalar, Scalar) -> Scalar>(
    ar: F,
    dim: int,
    row: Seq<Stages<D>>,
    periodic: bool,
) -> bool {
    row.len() == 1 || periodic || (row[0].leaves_to(ar, dim, -1).len() == 0
        && row.last().leaves_to(ar, dim, 1).len() == 0)
}

/// No row of axis `dim` loses an atom at its ends.
pub open spec fn axis_keeps<D: AtomData, F: Fn(Op, Scalar, Scalar, Scalar) -> Scalar>(
    ar: F,
    grid: Grid,
    stages: spec_fn(int, int, int) -> Stages<D>,
    dim: int,
) -> bool {
    forall|x: int, y: int, z: int| #[trigger]
        grid.has(x, y, z) ==> row_keeps(
            ar,
            dim,
            row_through(grid, stages, dim, x, y, z),
            grid.axis(dim).periodic,
        )
}

/// The parts `f(a, ..)` of one row.
pub open spec fn row_parts(f: spec_fn(int, int) -> Multiset<Body>, a: int) -> spec_fn(
    int,
) -> Multiset<Body> {
    |b: int| f(a, b)
}

/// The parts of whole rows, each `m` long.
pub open spec fn rows_together(f: spec_fn(int, int) -> Multiset<Body>, m: int) -> spec_fn(
    int,
) -> Multiset<Body> {
    |a: int| total(row_parts(f, a), m)
}

pub open spec fn flipped(f: spec_fn(int, int) -> Multiset<Body>) -> spec_fn(
    int,
    int,
) -> Multiset<Body> {
    |b: int, a: int| f(a, b)
}

proof fn lemma_total_of_nothing(part: spec_fn(int) -> Multiset<Body>, n: int)
    requires
        forall|p: int| 0 <= p < n ==> #[trigger] part(p) == Multiset::<Body>::empty(),
    ensures
        total(part, n) == Multiset::<Body>::empty(),
    decreases n,
{
    if n > 0 {
        lemma_total_of_nothing(part, n - 1);
        assert(part(n - 1) == Multiset::<Body>::empty());
        assert(total(part, n) =~= Multiset::<Body>::empty());
    }
}

/// Row by row or column by column, the whole is the same.
proof fn lemma_total_flipped(f: spec_fn(int, int) -> Multiset<Body>, n: int, m: int)
    requires
        n >= 0,
    ensures
        total(rows_together(f, m), n) == total(rows_together(flipped(f), n), m),
    decreases n,
{
    let columns: spec_fn(int) -> Multiset<Body> = rows_together(flipped(f), n);
    if n == 0 {
        lemma_total_of_nothing(columns, m);
    } else {
        let shorter: spec_fn(int) -> Multiset<Body> = rows_together(flipped(f), n - 1);
        let last: spec_fn(int) -> Multiset<Body> = row_parts(f, n - 1);
        lemma_total_flipped(f, n - 1, m);
        lemma_total_sum(shorter, last, m);
        let both: spec_fn(int) -> Multiset<Body> = |p: int| shorter(p).add(last(p));
        assert forall|b: int| 0 <= b < m implies both(b) == #[trigger] columns(b) by {
            assert(total(row_parts(flipped(f), b), n) == total(
                row_parts(flipped(f), b),
                n - 1,
            ).add(f(n - 1, b)));
        }
        lemma_total_alike(both, columns, m);
        assert(total(rows_together(f, m), n) == total(rows_together(f, m), n - 1).add(
            total(last, m),
        ));
    }
}

/// A plane of the grid.
pub open spec fn plane_parts(f: spec_fn(int, int, int) -> Multiset<Body>, x: int) -> spec_fn(
    int,
    int,
) -> Multiset<Body> {
    |y: int, z: int| f(x, y, z)
}

/// Whole columns along z, by their place in x and y.
pub open spec fn columns_together(f: spec_fn(int, int, int) -> Multiset<Body>, nz: int) -> spec_fn(
    int,
    int,
) -> Multiset<Body> {
    |x: int, y: int| total(row_parts(plane_parts(f, x), y), nz)
}

/// What all processes of the grid have together.
pub open spec fn grid_total(grid: Grid, f: spec_fn(int, int, int) -> Multiset<Body>) -> Multiset<
    Body,
> {
    total(rows_together(columns_together(f, grid.z.count), grid.y.count), grid.x.count)
}

/// The parts of the row along axis `d` through a place.
pub open spec fn parts_through(
    f: spec_fn(int, int, int) -> Multiset<Body>,
    d: int,
    x: int,
    y: int,
    z: int,
) -> spec_fn(int) -> Multiset<Body> {
    |k: int|
        if d == 0 {
            f(k, y, z)
        } else if d == 1 {
            f(x, k, z)
        } else {
            f(x, y, k)
        }
}

/// Where every row along z has the same whole, the grid has.
proof fn lemma_same_along_z(
    grid: Grid,
    f: spec_fn(int, int, int) -> Multiset<Body>,
    g: spec_fn(int, int, int) -> Multiset<Body>,
)
    requires
        grid.valid(),
        forall|x: int, y: int, z: int| #[trigger]
            grid.has(x, y, z) ==> total(parts_through(f, 2, x, y, z), grid.z.count) == total(
                parts_through(g, 2, x, y, z),
                grid.z.count,
            ),
    ensures
        grid_total(grid, f) == grid_total(grid, g),
{
    let (nx, ny, nz): (int, int, int) = (grid.x.count, grid.y.count, grid.z.count);
    let (a, b): (spec_fn(int, int) -> Multiset<Body>, spec_fn(int, int) -> Multiset<Body>) = (
        columns_together(f, nz),
        columns_together(g, nz),
    );
    assert forall|x: int| 0 <= x < nx implies rows_together(a, ny)(x) == #[trigger] rows_together(
        b,
        ny,
    )(x) by {
        assert forall|y: int| 0 <= y < ny implies row_parts(a, x)(y) == #[trigger] row_parts(b, x)(
            y,
        ) by {
            assert(grid.has(x, y, 0));
            lemma_total_alike(row_parts(plane_parts(f, x), y), parts_through(f, 2, x, y, 0), nz);
            lemma_total_alike(row_parts(plane_parts(g, x), y), parts_through(g, 2, x, y, 0), nz);
        }
        lemma_total_alike(row_parts(a, x), row_parts(b, x), ny);
    }
    lemma_total_alike(rows_together(a, ny), rows_together(b, ny), nx);
}

/// A plane can be taken column by column.
proof fn lemma_plane_flipped(
    grid: Grid,
    f: spec_fn(int, int, int) -> Multiset<Body>,
    x: int,
)
    requires
        grid.valid(),
    ensures
        total(row_parts(columns_together(f, grid.z.count), x), grid.y.count) == total(
            rows_together(flipped(plane_parts(f, x)), grid.y.count),
            grid.z.count,
        ),
{
    let (ny, nz): (int, int) = (grid.y.count, grid.z.count);
    lemma_total_flipped(plane_parts(f, x), ny, nz);
    lemma_total_alike(
        row_parts(columns_together(f, nz), x),
        rows_together(plane_parts(f, x), nz),
        ny,
    );
}

/// Where every row along y has the same whole, the grid has.
proof fn lemma_same_along_y(
    grid: Grid,
    f: spec_fn(int, int, int) -> Multiset<Body>,
    g: spec_fn(int, int, int) -> Multiset<Body>,
)
    requires
        grid.valid(),
        forall|x: int, y: int, z: int| #[trigger]
            grid.has(x, y, z) ==> total(parts_through(f, 1, x, y, z), grid.y.count) == total(
                parts_through(g, 1, x, y, z),
                grid.y.count,
            ),
    ensures
        grid_total(grid, f) == grid_total(grid, g),
{
    let (nx, ny, nz): (int, int, int) = (grid.x.count, grid.y.count, grid.z.count);
    let (a, b): (spec_fn(int, int) -> Multiset<Body>, spec_fn(int, int) -> Multiset<Body>) = (
        columns_together(f, nz),
        columns_together(g, nz),
    );
    assert forall|x: int| 0 <= x < nx implies rows_together(a, ny)(x) == #[trigger] rows_together(
        b,
        ny,
    )(x) by {
        lemma_plane_flipped(grid, f, x);
        lemma_plane_flipped(grid, g, x);
        let c: spec_fn(int) -> Multiset<Body> = rows_together(flipped(plane_parts(f, x)), ny);
        let d: spec_fn(int) -> Multiset<Body> = rows_together(flipped(plane_parts(g, x)), ny);
        assert forall|z: int| 0 <= z < nz implies c(z) == #[trigger] d(z) by {
            assert(grid.has(x, 0, z));
            lemma_total_alike(
                row_parts(flipped(plane_parts(f, x)), z),
                parts_through(f, 1, x, 0, z),
                ny,
            );
            lemma_total_alike(
                row_parts(flipped(plane_parts(g, x)), z),
                parts_through(g, 1, x, 0, z),
                ny,
            );
        }
        lemma_total_alike(c, d, nz);
    }
    lemma_total_alike(rows_together(a, ny), rows_together(b, ny), nx);
}

/// The plane at `y`, by x and z.
pub open spec fn slice_parts(f: spec_fn(int, int, int) -> Multiset<Body>, y: int) -> spec_fn(
    int,
    int,
) -> Multiset<Body> {
    |x: int, z: int| f(x, y, z)
}

/// The columns at `y` together, row by row along x.
proof fn lemma_slice_flipped(
    grid: Grid,
    f: spec_fn(int, int, int) -> Multiset<Body>,
    y: int,
)
    requires
        grid.valid(),
    ensures
        total(row_parts(flipped(columns_together(f, grid.z.count)), y), grid.x.count) == total(
            rows_together(flipped(slice_parts(f, y)), grid.x.count),
            grid.z.count,
        ),
{
    let (nx, nz): (int, int) = (grid.x.count, grid.z.count);
    let s: spec_fn(int, int) -> Multiset<Body> = slice_parts(f, y);
    lemma_total_flipped(s, nx, nz);
    let a: spec_fn(int) -> Multiset<Body> = row_parts(flipped(columns_together(f, nz)), y);
    let b: spec_fn(int) -> Multiset<Body> = rows_together(s, nz);
    assert forall|x: int| 0 <= x < nx implies a(x) == #[trigger] b(x) by {
        lemma_total_alike(row_parts(plane_parts(f, x), y), row_parts(s, x), nz);
    }
    lemma_total_alike(a, b, nx);
}

/// Where every row along x has the same whole, the grid has.
proof fn lemma_same_along_x(
    grid: Grid,
    f: spec_fn(int, int, int) -> Multiset<Body>,
    g: spec_fn(int, int, int) -> Multiset<Body>,
)
    requires
        grid.valid(),
        forall|x: int, y: int, z: int| #[trigger]
            grid.has(x, y, z) ==> total(parts_through(f, 0, x, y, z), grid.x.count) == total(
                parts_through(g, 0, x, y, z),
                grid.x.count,
            ),
    ensures
        grid_total(grid, f) == grid_total(grid, g),
{
    let (nx, ny, nz): (int, int, int) = (grid.x.count, grid.y.count, grid.z.count);
    let (a, b): (spec_fn(int, int) -> Multiset<Body>, spec_fn(int, int) -> Multiset<Body>) = (
        columns_together(f, nz),
        columns_together(g, nz),
    );
    lemma_total_flipped(a, nx, ny);
    lemma_total_flipped(b, nx, ny);
    let c: spec_fn(int) -> Multiset<Body> = rows_together(flipped(a), nx);
    let d: spec_fn(int) -> Multiset<Body> = rows_together(flipped(b), nx);
    assert forall|y: int| 0 <= y < ny implies c(y) == #[trigger] d(y) by {
        lemma_slice_flipped(grid, f, y);
        lemma_slice_flipped(grid, g, y);
        let s: spec_fn(int) -> Multiset<Body> = rows_together(flipped(slice_parts(f, y)), nx);
        let t: spec_fn(int) -> Multiset<Body> = rows_together(flipped(slice_parts(g, y)), nx);
        assert forall|z: int| 0 <= z < nz implies s(z) == #[trigger] t(z) by {
            assert(grid.has(0, y, z));
            lemma_total_alike(
                row_parts(flipped(slice_parts(f, y)), z),
                parts_through(f, 0, 0, y, z),
                nx,
            );
            lemma_total_alike(
                row_parts(flipped(slice_parts(g, y)), z),
                parts_through(g, 0, 0, y, z),
                nx,
            );
        }
        lemma_total_alike(s, t, nz);
    }
    lemma_total_alike(c, d, ny);
}

/// What each process had before the exchange along an axis.
pub open spec fn held_before<D: AtomData>(stages: spec_fn(int, int, int) -> Stages<D>) -> spec_fn(
    int,
    int,
    int,
) -> Multiset<Body> {
    |x: int, y: int, z: int|
        bodies(stages(x, y, z).before.0, stages(x, y, z).before.1).to_multiset()
}

/// What each process has after the exchange along an axis.
pub open spec fn held_after<D: AtomData>(stages: spec_fn(int, int, int) -> Stages<D>) -> spec_fn(
    int,
    int,
    int,
) -> Multiset<Body> {
    |x: int, y: int, z: int|
        bodies(stages(x, y, z).after.0, stages(x, y, z).after.1).to_multiset()
}

/// A row of the grid keeps its atoms.
proof fn lemma_row_of_grid<D: AtomData, F: Fn(Op, Scalar, Scalar, Scalar) -> Scalar>(
    ar: F,
    grid: Grid,
    stages: spec_fn(int, int, int) -> Stages<D>,
    dim: int,
    x: int,
    y: int,
    z: int,
)
    requires
        grid.valid(),
        0 <= dim < 3,
        grid.has(x, y, z),
        axis_exchanged(ar, grid, stages, dim),
        axis_keeps(ar, grid, stages, dim),
    ensures
        total(parts_through(held_after(stages), dim, x, y, z), grid.axis(dim).count) == total(
            parts_through(held_before(stages), dim, x, y, z),
            grid.axis(dim).count,
        ),
{
    let row: Seq<Stages<D>> = row_through(grid, stages, dim, x, y, z);
    let n: int = grid.axis(dim).count;
    let periodic: bool = grid.axis(dim).periodic;
    let before: spec_fn(int) -> Multiset<Body> = parts_through(
        held_before(stages),
        dim,
        x,
        y,
        z,
    );
    let after: spec_fn(int) -> Multiset<Body> = parts_through(held_after(stages), dim, x, y, z);
    assert(row_exchanged(ar, dim, row, periodic));
    assert(row_keeps(ar, dim, row, periodic));
    if n == 1 {
        assert forall|p: int| 0 <= p < n implies after(p) == #[trigger] before(p) by {
            assert(row[0].after == row[0].before);
        }
        lemma_total_alike(after, before, n);
    } else {
        let b: spec_fn(int) -> Multiset<Body> = |p: int|
            bodies(row[p].before.0, row[p].before.1).to_multiset();
        let a: spec_fn(int) -> Multiset<Body> = |p: int|
            bodies(row[p].after.0, row[p].after.1).to_multiset();
        exchange_conserves_atoms(ar, dim, row, periodic);
        assert(total(a, n) == total(b, n));
        lemma_total_alike(a, after, n);
        lemma_total_alike(b, before, n);
    }
}

/// The exchange along one axis of the grid keeps every atom.
proof fn lemma_axis_conserves<D: AtomData, F: Fn(Op, Scalar, Scalar, Scalar) -> Scalar>(
    ar: F,
    grid: Grid,
    stages: spec_fn(int, int, int) -> Stages<D>,
    dim: int,
)
    requires
        grid.valid(),
        0 <= dim < 3,
        axis_exchanged(ar, grid, stages, dim),
        axis_keeps(ar, grid, stages, dim),
    ensures
        grid_total(grid, held_after(stages)) == grid_total(grid, held_before(stages)),
{
    let (f, g): (
        spec_fn(int, int, int) -> Multiset<Body>,
        spec_fn(int, int, int) -> Multiset<Body>,
    ) = (held_after(stages), held_before(stages));
    let n: int = grid.axis(dim).count;
    assert forall|x: int, y: int, z: int| #[trigger] grid.has(x, y, z) implies total(
        parts_through(f, dim, x, y, z),
        n,
    ) == total(parts_through(g, dim, x, y, z), n) by {
        lemma_row_of_grid(ar, grid, stages, dim, x, y, z);
    }
    if dim == 0 {
        lemma_same_along_x(grid, f, g);
    } else if dim == 1 {
        lemma_same_along_y(grid, f, g);
    } else {
        lemma_same_along_z(grid, f, g);
    }
}

/// What one exchange leaves is what the next one starts from.
pub open spec fn follows_on<D: AtomData>(
    grid: Grid,
    first: spec_fn(int, int, int) -> Stages<D>,
    next: spec_fn(int, int, int) -> Stages<D>,
) -> bool {
    forall|x: int, y: int, z: int| #[trigger]
        grid.has(x, y, z) ==> next(x, y, z).before == first(x, y, z).after
}

proof fn lemma_handed_on<D: AtomData>(
    grid: Grid,
    first: spec_fn(int, int, int) -> Stages<D>,
    next: spec_fn(int, int, int) -> Stages<D>,
)
    requires
        grid.valid(),
        follows_on(grid, first, next),
    ensures
        grid_total(grid, held_before(next)) == grid_total(grid, held_after(first)),
{
    let (f, g): (
        spec_fn(int, int, int) -> Multiset<Body>,
        spec_fn(int, int, int) -> Multiset<Body>,
    ) = (held_before(next), held_after(first));
    assert forall|x: int, y: int, z: int| #[trigger] grid.has(x, y, z) implies total(
        parts_through(f, 2, x, y, z),
        grid.z.count,
    ) == total(parts_through(g, 2, x, y, z), grid.z.count) by {
        assert forall|k: int| 0 <= k < grid.z.count implies parts_through(f, 2, x, y, z)(k)
            == #[trigger] parts_through(g, 2, x, y, z)(k) by {
            assert(grid.has(x, y, k));
        }
        lemma_total_alike(
            parts_through(f, 2, x, y, z),
            parts_through(g, 2, x, y, z),
            grid.z.count,
        );
    }
    lemma_same_along_z(grid, f, g);
}

/// The exchange along the three axes, one after the other, loses no atom and doubles
/// none: all processes of the grid together have afterwards the atoms, with all their
/// extension data, that they had before. Where an axis is not periodic, nothing may
/// leave the grid at its ends.
pub proof fn exchange_conserves_atoms_of_the_grid<
    D: AtomData,
    F: Fn(Op, Scalar, Scalar, Scalar) -> Scalar,
>(
    ar: F,
    grid: Grid,
    first: spec_fn(int, int, int) -> Stages<D>,
    second: spec_fn(int, int, int) -> Stages<D>,
    third: spec_fn(int, int, int) -> Stages<D>,
)
    requires
        grid.valid(),
        axis_exchanged(ar, grid, first, 0) && axis_keeps(ar, grid, first, 0),
        axis_exchanged(ar, grid, second, 1) && axis_keeps(ar, grid, second, 1),
        axis_exchanged(ar, grid, third, 2) && axis_keeps(ar, grid, third, 2),
        follows_on(grid, first, second),
        follows_on(grid, second, third),
    ensures
        grid_total(grid, held_after(third)) == grid_total(grid, held_before(first)),
{
    lemma_axis_conserves(ar, grid, first, 0);
    lemma_handed_on(grid, first, second);
    lemma_axis_conserves(ar, grid, second, 1);
    lemma_handed_on(grid, second, third);
    lemma_axis_conserves(ar, grid, third, 2);
}

/// The process at place `p` along axis `dim` owns that part of the box.
pub open spec fn owns(domain: Domain, parts: Parts, dim: int, p: int) -> bool {
    &&& num(domain.sub_domain_low[dim]) == parts.start(p)
    &&& num(domain.sub_domain_high[dim]) == parts.start(p + 1)
    &&& num(domain.size[dim]) == parts.count as real * parts.width
    &&& (domain.boundary_type[dim] == BoundaryType::Periodic) == parts.periodic
}

/// Where the atoms of a process belong along an axis is computed without rounding.
pub open spec fn exact_places<D: AtomData, F: Fn(Op, Scalar, Scalar, Scalar) -> Scalar>(
    ar: F,
    me: Stages<D>,
    dim: int,
) -> bool {
    forall|i: int|
        0 <= i < me.before.0.records().len() ==> exact_side(
            ar,
            (#[trigger] me.before.0.pos@[i])[dim],
            me.domain.sub_domain_low[dim],
            me.domain.sub_domain_high[dim],
            me.domain.size[dim],
            me.domain.boundary_type[dim] == BoundaryType::Periodic,
        )
}

/// Every process of the grid owns its part along axis `dim`, and nothing is rounded.
pub open spec fn axis_is_exact<D: AtomData, F: Fn(Op, Scalar, Scalar, Scalar) -> Scalar>(
    ar: F,
    grid: Grid,
    stages: spec_fn(int, int, int) -> Stages<D>,
    dim: int,
) -> bool {
    forall|x: int, y: int, z: int| #[trigger]
        grid.has(x, y, z) ==> {
            &&& owns(stages(x, y, z).domain, grid.axis(dim), dim, place_along(dim, x, y, z))
            &&& exact_places(ar, stages(x, y, z), dim)
        }
}

/// The atom lies in the part of this process along the first `done` axes, and in it or
/// next to it along the others.
pub open spec fn placed(grid: Grid, done: int, x: int, y: int, z: int, b: Body) -> bool {
    forall|d: int|
        0 <= d < 3 ==> {
            let at: real = num(#[trigger] b.pos[d]);
            if d < done {
                grid.axis(d).holds(place_along(d, x, y, z), at)
            } else {
                grid.axis(d).near(place_along(d, x, y, z), at)
            }
        }
}

/// All atoms of a process are where [`placed`] says.
pub open spec fn all_placed<D: AtomData>(
    grid: Grid,
    done: int,
    x: int,
    y: int,
    z: int,
    state: (Atom, AtomDataRegistry<D>),
) -> bool {
    forall|i: int|
        0 <= i < state.0.records().len() ==> placed(
            grid,
            done,
            x,
            y,
            z,
            #[trigger] bodies(state.0, state.1)[i],
        )
}

/// What a sweep leaves behind the visited places did not leave.
proof fn lemma_stayed<T>(s: Seq<T>, leave: Seq<bool>, k: int, j: int)
    requires
        0 <= k <= leave.len() == s.len(),
        k <= j < sweep(s, leave, k).len(),
    ensures
        exists|i: int| k <= i < s.len() && #[trigger] s[i] == sweep(s, leave, k)[j] && !leave[i],
    decreases leave.len() - k,
{
    lemma_sweep(s, leave, k);
    if k < leave.len() {
        let t: Seq<T> = sweep(s, leave, k + 1);
        lemma_sweep(s, leave, k + 1);
        if leave[k] {
            if j == k {
                lemma_stayed(s, leave, k + 1, t.len() - 1);
            } else {
                lemma_stayed(s, leave, k + 1, j);
            }
        } else if j == k {
            assert(s[k] == t[k]);
        } else {
            lemma_stayed(s, leave, k + 1, j);
        }
    }
}

/// An atom ends in the part of the process that it is handed over to or stays with.
proof fn lemma_belongs<D: AtomData, F: Fn(Op, Scalar, Scalar, Scalar) -> Scalar>(
    ar: F,
    grid: Grid,
    dim: int,
    me: Stages<D>,
    x: int,
    y: int,
    z: int,
    i: int,
)
    requires
        grid.valid(),
        0 <= dim < 3,
        grid.has(x, y, z),
        grid.axis(dim).count >= 2,
        owns(me.domain, grid.axis(dim), dim, place_along(dim, x, y, z)),
        exact_places(ar, me, dim),
        all_placed(grid, dim, x, y, z, me.before),
        me.before.0.wf(),
        0 <= i < me.before.0.records().len(),
    ensures
        ({
            let parts = grid.axis(dim);
            let to = parts.receiver(place_along(dim, x, y, z), me.places(ar, dim)[i]);
            &&& to matches Some(q) && parts.holds(
                q,
                num(bodies(me.before.0, me.before.1)[i].pos[dim]),
            )
        }),
{
    let parts: Parts = grid.axis(dim);
    let p: int = place_along(dim, x, y, z);
    let b: Body = bodies(me.before.0, me.before.1)[i];
    assert(placed(grid, dim, x, y, z, b));
    assert(b.pos == me.before.0.pos@[i]);
    let at: Scalar = b.pos[dim];
    assert(parts.near(p, num(at)));
    let q: int = choose|q: int| #[trigger] parts.next_to(p, q, num(at));
    assert(exact_side(
        ar,
        me.before.0.pos@[i][dim],
        me.domain.sub_domain_low[dim],
        me.domain.sub_domain_high[dim],
        me.domain.size[dim],
        parts.periodic,
    ));
    atoms_go_to_their_owners(
        ar,
        parts,
        p,
        q,
        at,
        me.domain.sub_domain_low[dim],
        me.domain.sub_domain_high[dim],
        me.domain.size[dim],
    );
    assert(me.places(ar, dim)[i] == side(
        ar,
        at,
        me.domain.sub_domain_low[dim],
        me.domain.sub_domain_high[dim],
        me.domain.size[dim],
        parts.periodic,
    ));
}

/// The exchange took place along axis `dim`, nothing was rounded, and every atom was
/// in its process's part or next to it.
#[verifier::opaque]
pub open spec fn set_out<D: AtomData, F: Fn(Op, Scalar, Scalar, Scalar) -> Scalar>(
    ar: F,
    grid: Grid,
    stages: spec_fn(int, int, int) -> Stages<D>,
    dim: int,
) -> bool {
    &&& axis_exchanged(ar, grid, stages, dim)
    &&& axis_is_exact(ar, grid, stages, dim)
    &&& forall|x: int, y: int, z: int| #[trigger]
        grid.has(x, y, z) ==> all_placed(grid, dim, x, y, z, stages(x, y, z).before)
}

/// A place that differs only along axis `dim`.
pub open spec fn moved_to(dim: int, x: int, y: int, z: int, k: int) -> (int, int, int) {
    if dim == 0 {
        (k, y, z)
    } else if dim == 1 {
        (x, k, z)
    } else {
        (x, y, k)
    }
}

/// An atom that a process of the row has for this one lies in this one's part.
proof fn lemma_comes_home<D: AtomData, F: Fn(Op, Scalar, Scalar, Scalar) -> Scalar>(
    ar: F,
    grid: Grid,
    stages: spec_fn(int, int, int) -> Stages<D>,
    dim: int,
    x: int,
    y: int,
    z: int,
    k: int,
    i: int,
)
    requires
        grid.valid(),
        0 <= dim < 3,
        grid.has(x, y, z),
        grid.axis(dim).count >= 2,
        0 <= k < grid.axis(dim).count,
        set_out(ar, grid, stages, dim),
        ({
            let me = row_through(grid, stages, dim, x, y, z)[k];
            &&& 0 <= i < me.before.0.records().len()
            &&& grid.axis(dim).receiver(k, me.places(ar, dim)[i]) == Some(
                place_along(dim, x, y, z),
            )
        }),
    ensures
        ({
            let me = row_through(grid, stages, dim, x, y, z)[k];
            placed(grid, dim + 1, x, y, z, bodies(me.before.0, me.before.1)[i])
        }),
{
    reveal(set_out);
    let row: Seq<Stages<D>> = row_through(grid, stages, dim, x, y, z);
    let (a, b, c): (int, int, int) = moved_to(dim, x, y, z, k);
    let me: Stages<D> = row[k];
    assert(grid.has(a, b, c));
    assert(me == stages(a, b, c));
    assert(place_along(dim, a, b, c) == k);
    assert(row_exchanged(ar, dim, row, grid.axis(dim).periodic));
    assert(me.ready(ar));
    lemma_belongs(ar, grid, dim, me, a, b, c, i);
    let body: Body = bodies(me.before.0, me.before.1)[i];
    assert(placed(grid, dim, a, b, c, body));
    assert forall|d: int| 0 <= d < 3 implies {
        let at: real = num(#[trigger] body.pos[d]);
        if d < dim + 1 {
            grid.axis(d).holds(place_along(d, x, y, z), at)
        } else {
            grid.axis(d).near(place_along(d, x, y, z), at)
        }
    } by {
        if d != dim {
            assert(place_along(d, a, b, c) == place_along(d, x, y, z));
        }
    }
}

/// The atoms of a process after the exchange are those that stayed and those that its
/// neighbours had for it.
proof fn lemma_found<D: AtomData, F: Fn(Op, Scalar, Scalar, Scalar) -> Scalar>(
    ar: F,
    grid: Grid,
    stages: spec_fn(int, int, int) -> Stages<D>,
    dim: int,
    x: int,
    y: int,
    z: int,
)
    requires
        0 <= dim < 3,
        grid.has(x, y, z),
        grid.axis(dim).count >= 2,
        set_out(ar, grid, stages, dim),
    ensures
        ({
            let row = row_through(grid, stages, dim, x, y, z);
            let parts = grid.axis(dim);
            let p = place_along(dim, x, y, z);
            let me = stages(x, y, z);
            &&& me == row[p]
            &&& bodies(me.after.0, me.after.1) == gathered(
                ar,
                dim,
                me,
                stages_of(row, above(p, parts.count, parts.periodic)),
                stages_of(row, under(p, parts.count, parts.periodic)),
            )
        }),
{
    reveal(set_out);
    let row: Seq<Stages<D>> = row_through(grid, stages, dim, x, y, z);
    let parts: Parts = grid.axis(dim);
    let p: int = place_along(dim, x, y, z);
    let me: Stages<D> = row[p];
    assert(row_exchanged(ar, dim, row, parts.periodic));
    let upper: Option<int> = above(p, parts.count, parts.periodic);
    let lower: Option<int> = under(p, parts.count, parts.periodic);
    assert(me.ready(ar));
    if upper is Some {
        assert(row[upper->0].ready(ar));
    }
    if lower is Some {
        assert(row[lower->0].ready(ar));
    }
    assert(me.exchanged(ar, dim, stages_of(row, upper), stages_of(row, lower)));
    lemma_gathered(ar, dim, me, stages_of(row, upper), stages_of(row, lower));
}

/// An atom that stayed lies in the part of the process it stayed with.
proof fn lemma_stays_home<D: AtomData, F: Fn(Op, Scalar, Scalar, Scalar) -> Scalar>(
    ar: F,
    grid: Grid,
    stages: spec_fn(int, int, int) -> Stages<D>,
    dim: int,
    x: int,
    y: int,
    z: int,
    j: int,
)
    requires
        grid.valid(),
        0 <= dim < 3,
        grid.has(x, y, z),
        set_out(ar, grid, stages, dim),
        grid.axis(dim).count >= 2,
        ({
            let me = stages(x, y, z);
            let all = bodies(me.before.0, me.before.1);
            0 <= j < sweep(all, elsewhere(me.places(ar, dim)), 0).len()
        }),
    ensures
        ({
            let me = stages(x, y, z);
            let all = bodies(me.before.0, me.before.1);
            placed(grid, dim + 1, x, y, z, sweep(all, elsewhere(me.places(ar, dim)), 0)[j])
        }),
{
    let me: Stages<D> = stages(x, y, z);
    let p: int = place_along(dim, x, y, z);
    assert(row_through(grid, stages, dim, x, y, z)[p] == me);
    let all: Seq<Body> = bodies(me.before.0, me.before.1);
    let places: Seq<int> = me.places(ar, dim);
    let stayed: Seq<Body> = sweep(all, elsewhere(places), 0);
    lemma_stayed(all, elsewhere(places), 0, j);
    let i: int = choose|i: int|
        0 <= i < all.len() && #[trigger] all[i] == stayed[j] && !elsewhere(places)[i];
    lemma_comes_home(ar, grid, stages, dim, x, y, z, p, i);
}

/// An atom that a process has after the exchange lies in the process's part.
proof fn lemma_one_placed<D: AtomData, F: Fn(Op, Scalar, Scalar, Scalar) -> Scalar>(
    ar: F,
    grid: Grid,
    stages: spec_fn(int, int, int) -> Stages<D>,
    dim: int,
    x: int,
    y: int,
    z: int,
    j: int,
)
    requires
        grid.valid(),
        0 <= dim < 3,
        grid.has(x, y, z),
        set_out(ar, grid, stages, dim),
        grid.axis(dim).count >= 2,
        0 <= j < bodies(stages(x, y, z).after.0, stages(x, y, z).after.1).len(),
    ensures
        placed(
            grid,
            dim + 1,
            x,
            y,
            z,
            bodies(stages(x, y, z).after.0, stages(x, y, z).after.1)[j],
        ),
{
    let row: Seq<Stages<D>> = row_through(grid, stages, dim, x, y, z);
    let parts: Parts = grid.axis(dim);
    let p: int = place_along(dim, x, y, z);
    let me: Stages<D> = stages(x, y, z);
    let upper: Option<int> = above(p, parts.count, parts.periodic);
    let lower: Option<int> = under(p, parts.count, parts.periodic);
    lemma_found(ar, grid, stages, dim, x, y, z);
    let first: int = sweep(
        bodies(me.before.0, me.before.1),
        elsewhere(me.places(ar, dim)),
        0,
    ).len() as int;
    let middle: int = match upper {
        Some(q) => row[q].leaves_to(ar, dim, -1).len() as int,
        None => 0,
    };
    if j < first {
        lemma_stays_home(ar, grid, stages, dim, x, y, z, j);
    } else if j < first + middle {
        lemma_arrived(ar, grid, stages, dim, x, y, z, upper->0, -1, j - first);
    } else {
        lemma_arrived(ar, grid, stages, dim, x, y, z, lower->0, 1, j - first - middle);
    }
}

/// After the exchange along an axis every atom lies in its process's part along it.
proof fn lemma_axis_places<D: AtomData, F: Fn(Op, Scalar, Scalar, Scalar) -> Scalar>(
    ar: F,
    grid: Grid,
    stages: spec_fn(int, int, int) -> Stages<D>,
    dim: int,
    x: int,
    y: int,
    z: int,
)
    requires
        grid.valid(),
        0 <= dim < 3,
        grid.has(x, y, z),
        set_out(ar, grid, stages, dim),
    ensures
        all_placed(grid, dim + 1, x, y, z, stages(x, y, z).after),
{
    reveal(set_out);
    let parts: Parts = grid.axis(dim);
    let p: int = place_along(dim, x, y, z);
    let me: Stages<D> = stages(x, y, z);
    let found: Seq<Body> = bodies(me.after.0, me.after.1);
    assert forall|j: int| 0 <= j < me.after.0.records().len() implies placed(
        grid,
        dim + 1,
        x,
        y,
        z,
        #[trigger] found[j],
    ) by {
        if parts.count == 1 {
            let row: Seq<Stages<D>> = row_through(grid, stages, dim, x, y, z);
            assert(row_exchanged(ar, dim, row, parts.periodic));
            assert(row[0] == me);
            assert(all_placed(grid, dim, x, y, z, me.before));
            let b: Body = found[j];
            assert(placed(grid, dim, x, y, z, b));
            assert(parts.near(p, num(b.pos[dim])));
            let q: int = choose|q: int| #[trigger] parts.next_to(p, q, num(b.pos[dim]));
            assert(q == p);
        } else {
            lemma_one_placed(ar, grid, stages, dim, x, y, z, j);
        }
    }
}

/// An atom that arrived lies in the part of the process it arrived at.
proof fn lemma_arrived<D: AtomData, F: Fn(Op, Scalar, Scalar, Scalar) -> Scalar>(
    ar: F,
    grid: Grid,
    stages: spec_fn(int, int, int) -> Stages<D>,
    dim: int,
    x: int,
    y: int,
    z: int,
    k: int,
    s: int,
    c: int,
)
    requires
        grid.valid(),
        0 <= dim < 3,
        grid.has(x, y, z),
        grid.axis(dim).count >= 2,
        0 <= k < grid.axis(dim).count,
        s == 1 || s == -1,
        grid.axis(dim).receiver(k, s) == Some(place_along(dim, x, y, z)),
        set_out(ar, grid, stages, dim),
        0 <= c < row_through(grid, stages, dim, x, y, z)[k].leaves_to(ar, dim, s).len(),
    ensures
        placed(
            grid,
            dim + 1,
            x,
            y,
            z,
            row_through(grid, stages, dim, x, y, z)[k].leaves_to(ar, dim, s)[c],
        ),
{
    let me: Stages<D> = row_through(grid, stages, dim, x, y, z)[k];
    let leave: Seq<bool> = on_side(me.places(ar, dim), s);
    lemma_leavers_at(bodies(me.before.0, me.before.1), leave, 0, c);
    let i: int = leaving_indices(leave, 0)[c];
    lemma_comes_home(ar, grid, stages, dim, x, y, z, k, i);
}

/// Where every atom is in the part of its process or next to it, nothing leaves the
/// rows of an axis at their ends.
proof fn lemma_nothing_leaves<D: AtomData, F: Fn(Op, Scalar, Scalar, Scalar) -> Scalar>(
    ar: F,
    grid: Grid,
    stages: spec_fn(int, int, int) -> Stages<D>,
    dim: int,
)
    requires
        grid.valid(),
        0 <= dim < 3,
        set_out(ar, grid, stages, dim),
    ensures
        axis_keeps(ar, grid, stages, dim),
{
    reveal(set_out);
    let n: int = grid.axis(dim).count;
    let periodic: bool = grid.axis(dim).periodic;
    assert forall|x: int, y: int, z: int| #[trigger] grid.has(x, y, z) implies row_keeps(
        ar,
        dim,
        row_through(grid, stages, dim, x, y, z),
        periodic,
    ) by {
        let row: Seq<Stages<D>> = row_through(grid, stages, dim, x, y, z);
        assert(row_exchanged(ar, dim, row, periodic));
        if n > 1 && !periodic {
            lemma_end_keeps(ar, grid, stages, dim, x, y, z, 0, -1);
            lemma_end_keeps(ar, grid, stages, dim, x, y, z, n - 1, 1);
        }
    }
}

proof fn lemma_end_keeps<D: AtomData, F: Fn(Op, Scalar, Scalar, Scalar) -> Scalar>(
    ar: F,
    grid: Grid,
    stages: spec_fn(int, int, int) -> Stages<D>,
    dim: int,
    x: int,
    y: int,
    z: int,
    k: int,
    s: int,
)
    requires
        grid.valid(),
        0 <= dim < 3,
        grid.has(x, y, z),
        grid.axis(dim).count >= 2,
        0 <= k < grid.axis(dim).count,
        grid.axis(dim).receiver(k, s) is None,
        set_out(ar, grid, stages, dim),
    ensures
        row_through(grid, stages, dim, x, y, z)[k].leaves_to(ar, dim, s).len() == 0,
{
    reveal(set_out);
    let row: Seq<Stages<D>> = row_through(grid, stages, dim, x, y, z);
    let (a, b, c): (int, int, int) = moved_to(dim, x, y, z, k);
    let me: Stages<D> = row[k];
    assert(grid.has(a, b, c));
    assert(me == stages(a, b, c));
    assert(place_along(dim, a, b, c) == k);
    assert(row_exchanged(ar, dim, row, grid.axis(dim).periodic));
    assert(me.ready(ar));
    let leave: Seq<bool> = on_side(me.places(ar, dim), s);
    lemma_leavers_at(bodies(me.before.0, me.before.1), leave, 0, 0);
    if me.leaves_to(ar, dim, s).len() > 0 {
        lemma_belongs(ar, grid, dim, me, a, b, c, leaving_indices(leave, 0)[0]);
    }
}

/// The exchange along one axis makes no ghosts.
proof fn lemma_axis_makes_no_ghosts<D: AtomData, F: Fn(Op, Scalar, Scalar, Scalar) -> Scalar>(
    ar: F,
    grid: Grid,
    stages: spec_fn(int, int, int) -> Stages<D>,
    dim: int,
    x: int,
    y: int,
    z: int,
)
    requires
        0 <= dim < 3,
        grid.has(x, y, z),
        axis_exchanged(ar, grid, stages, dim),
        no_ghosts(stages(x, y, z).before.0),
    ensures
        no_ghosts(stages(x, y, z).after.0),
{
    let row: Seq<Stages<D>> = row_through(grid, stages, dim, x, y, z);
    let parts: Parts = grid.axis(dim);
    let p: int = place_along(dim, x, y, z);
    assert(row_exchanged(ar, dim, row, parts.periodic));
    assert(row[p] == stages(x, y, z));
    if parts.count != 1 {
        exchanged_atoms_are_no_ghosts(
            ar,
            dim,
            row[p],
            stages_of(row, above(p, parts.count, parts.periodic)),
            stages_of(row, under(p, parts.count, parts.periodic)),
        );
    }
}

/// Atoms that moved at most to a part next to their process's own come home: after
/// the exchange along the three axes each atom is with the process whose part of the
/// box holds it, no atom is a ghost, and all atoms are still there.
pub proof fn exchanged_atoms_come_home<
    D: AtomData,
    F: Fn(Op, Scalar, Scalar, Scalar) -> Scalar,
>(
    ar: F,
    grid: Grid,
    first: spec_fn(int, int, int) -> Stages<D>,
    second: spec_fn(int, int, int) -> Stages<D>,
    third: spec_fn(int, int, int) -> Stages<D>,
)
    requires
        grid.valid(),
        axis_exchanged(ar, grid, first, 0) && axis_is_exact(ar, grid, first, 0),
        axis_exchanged(ar, grid, second, 1) && axis_is_exact(ar, grid, second, 1),
        axis_exchanged(ar, grid, third, 2) && axis_is_exact(ar, grid, third, 2),
        follows_on(grid, first, second),
        follows_on(grid, second, third),
        forall|x: int, y: int, z: int| #[trigger]
            grid.has(x, y, z) ==> all_placed(grid, 0, x, y, z, first(x, y, z).before) && no_ghosts(
                first(x, y, z).before.0,
            ),
    ensures
        forall|x: int, y: int, z: int| #[trigger]
            grid.has(x, y, z) ==> all_placed(grid, 3, x, y, z, third(x, y, z).after) && no_ghosts(
                third(x, y, z).after.0,
            ),
        grid_total(grid, held_after(third)) == grid_total(grid, held_before(first)),
{
    reveal(set_out);
    lemma_nothing_leaves(ar, grid, first, 0);
    assert forall|x: int, y: int, z: int| #[trigger] grid.has(x, y, z) implies all_placed(
        grid,
        1,
        x,
        y,
        z,
        second(x, y, z).before,
    ) && no_ghosts(second(x, y, z).before.0) by {
        lemma_axis_places(ar, grid, first, 0, x, y, z);
        lemma_axis_makes_no_ghosts(ar, grid, first, 0, x, y, z);
    }
    lemma_nothing_leaves(ar, grid, second, 1);
    assert forall|x: int, y: int, z: int| #[trigger] grid.has(x, y, z) implies all_placed(
        grid,
        2,
        x,
        y,
        z,
        third(x, y, z).before,
    ) && no_ghosts(third(x, y, z).before.0) by {
        lemma_axis_places(ar, grid, second, 1, x, y, z);
        lemma_axis_makes_no_ghosts(ar, grid, second, 1, x, y, z);
    }
    lemma_nothing_leaves(ar, grid, third, 2);
    assert forall|x: int, y: int, z: int| #[trigger] grid.has(x, y, z) implies all_placed(
        grid,
        3,
        x,
        y,
        z,
        third(x, y, z).after,
    ) && no_ghosts(third(x, y, z).after.0) by {
        lemma_axis_places(ar, grid, third, 2, x, y, z);
        lemma_axis_makes_no_ghosts(ar, grid, third, 2, x, y, z);
    }
    exchange_conserves_atoms_of_the_grid(ar, grid, first, second, third);
}

/// A process of an evenly split box owns the part at its place, where nothing is
/// rounded.
pub proof fn split_box_is_owned<F: Fn(Op, Scalar, Scalar, Scalar) -> Scalar>(
    ar: F,
    config: DomainConfig,
    decomp: [i32; 3],
    at: [i32; 3],
    r: Domain,
    d: int,
)
    requires
        is_part(ar, config, decomp, at, r),
        0 <= d < 3,
        0 <= at[d] < decomp[d],
        ({
            let (low, length) = (r.boundaries_low[d], r.sub_length[d]);
            let (p, q) = (int_word(at[d] as int), int_word(1 + at[d]));
            &&& exact_quotient(ar, r.size[d], int_word(decomp[d] as int))
            &&& exact_product(ar, length, p) && exact_sum(ar, low, product(ar, length, p))
            &&& exact_product(ar, length, q) && exact_sum(ar, low, product(ar, length, q))
        }),
    ensures
        owns(
            r,
            Parts {
                count: decomp[d] as int,
                low: num(r.boundaries_low[d]),
                width: num(r.sub_length[d]),
                periodic: r.boundary_type[d] == BoundaryType::Periodic,
            },
            d,
            at[d] as int,
        ),
{
    let (n, p): (int, int) = (decomp[d] as int, at[d] as int);
    assert(r.sub_length[d] == quotient(ar, r.size[d], int_word(n)));
    lemma_int_word(n);
    lemma_int_word(p);
    lemma_int_word(1 + p);
    lemma_whole(int_word(n), n);
    lemma_whole(int_word(p), p);
    lemma_whole(int_word(1 + p), 1 + p);
    lemma_divided(num(r.size[d]), n as real);
    lemma_mul_order(num(r.sub_length[d]), n as real, 1real);
    lemma_mul_order(num(r.sub_length[d]), p as real, 1real);
    lemma_mul_order(num(r.sub_length[d]), (1 + p) as real, 1real);
    assert(1 + p == p + 1);
}

} // verus!
