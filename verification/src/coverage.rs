//! What the planned bin grid covers: the cutoff, the sub-domain and its ghosts.

use crate::all_pairs::{
    grid_covers, lies_in_its_cell, pair_is_exact, real_distance_squared, real_gap_squared,
};
use crate::bond::lemma_int_word;
use crate::domain::Domain;
use crate::exact::{
    exact_difference, exact_product, exact_quotient, is_num, lemma_constants, lemma_divided, lemma_mul_add,
    lemma_mul_order, lemma_order, lemma_rounded, lemma_whole, num,
};
use crate::neighbor::{
    axis_cell, cell_of, cells_of, has_grid, is_plan, lemma_cell_bound, planned, GridPlan, Neighbor,
};
use crate::neighbor_list::{distance_squared, stencil_fits};
use crate::scalar::{difference, int_word, product, quotient, Op, Scalar, Vec3};
use crate::stencil::{
    forward_is_positive_half, gap, gap_squared, stencil_is_exact, stencil_stays_in_grid, within_cutoff,
};
use vstd::prelude::*;

verus! {

/// The ghost layers of a plan whose cells an `i32` counts.
pub open spec fn layers_of(plan: GridPlan) -> [i32; 3] {
    [plan.layers[0] as i32, plan.layers[1] as i32, plan.layers[2] as i32]
}

/// The distance from the sub-domain that ghosts are taken from.
pub open spec fn ghost_reach(cutoff: Scalar, domain: Domain) -> Scalar {
    if cutoff.below(domain.ghost_cutoff) {
        domain.ghost_cutoff
    } else {
        cutoff
    }
}

/// The grid is planned without rounding along axis `d`, for a sub-domain of some
/// length and a cutoff that is not negative.
pub open spec fn exact_axis<F: Fn(Op, Scalar, Scalar, Scalar) -> Scalar>(
    ar: F,
    cutoff: Scalar,
    domain: Domain,
    plan: GridPlan,
    d: int,
) -> bool {
    let bin = plan.bin_size[d];
    let layers = int_word(plan.layers[d] as int);
    &&& num(domain.sub_length[d]) > 0real
    &&& num(domain.sub_length[d]) == num(domain.sub_domain_high[d]) - num(
        domain.sub_domain_low[d],
    )
    &&& exact_quotient(ar, domain.sub_length[d], int_word(plan.interior[d] as int))
    &&& exact_quotient(ar, cutoff, bin)
    &&& exact_quotient(ar, ghost_reach(cutoff, domain), bin)
    &&& exact_product(ar, bin, layers)
    &&& exact_difference(ar, domain.sub_domain_low[d], product(ar, bin, layers))
}

/// The grid is planned without rounding.
pub open spec fn exact_plan<F: Fn(Op, Scalar, Scalar, Scalar) -> Scalar>(
    ar: F,
    cutoff: Scalar,
    domain: Domain,
    plan: GridPlan,
) -> bool {
    &&& !cutoff.nan() && num(cutoff) >= 0real
    &&& exact_product(ar, cutoff, cutoff)
    &&& forall|d: int| 0 <= d < 3 ==> #[trigger] exact_axis(ar, cutoff, domain, plan, d)
}

/// A coordinate is put into its cell without rounding.
pub open spec fn exact_cell<F: Fn(Op, Scalar, Scalar, Scalar) -> Scalar>(
    ar: F,
    neighbor: Neighbor,
    pos: Vec3,
    d: int,
) -> bool {
    let inverse = quotient(ar, Scalar::one(), neighbor.bin_size[d]);
    let past = difference(ar, pos[d], neighbor.bin_origin[d]);
    &&& exact_quotient(ar, Scalar::one(), neighbor.bin_size[d])
    &&& exact_difference(ar, pos[d], neighbor.bin_origin[d])
    &&& exact_product(ar, past, inverse)
}

/// The whole bins that a distance spans are no shorter than it.
proof fn lemma_spanned<F: Fn(Op, Scalar, Scalar, Scalar) -> Scalar>(
    ar: F,
    distance: Scalar,
    bin: Scalar,
)
    requires
        num(bin) > 0real,
        num(distance) >= 0real,
        exact_quotient(ar, distance, bin),
    ensures
        quotient(ar, distance, bin).ceiling() >= 0,
        quotient(ar, distance, bin).ceiling() as real * num(bin) >= num(distance),
{
    let q: Scalar = quotient(ar, distance, bin);
    lemma_rounded(q);
    let (a, b): (real, real) = (num(distance), num(bin));
    assert(a / b >= 0real) by (nonlinear_arith)
        requires
            a >= 0real,
            b > 0real,
    ;
    lemma_divided(a, b);
    let (x, y): (real, real) = (q.ceiling() as real, a / b);
    assert(x * b >= y * b) by (nonlinear_arith)
        requires
            x >= y,
            b > 0real,
    ;
}

/// The bins have a length, they fill the sub-domain, and the layers around it are as
/// wide as the reach of ghosts and the cutoff together.
proof fn lemma_planned_axis<F: Fn(Op, Scalar, Scalar, Scalar) -> Scalar>(
    ar: F,
    neighbor: Neighbor,
    domain: Domain,
    comm_size: i32,
    plan: GridPlan,
    d: int,
)
    requires
        0 <= d < 3,
        planned(ar, neighbor, domain, comm_size, plan, d),
        plan.fits(),
        plan.bins(d) <= i32::MAX,
        !neighbor.cached_max_cutoff.nan() && num(neighbor.cached_max_cutoff) >= 0real,
        exact_axis(ar, neighbor.cached_max_cutoff, domain, plan, d),
    ensures
        plan.interior[d] >= 1,
        num(plan.bin_size[d]) > 0real,
        plan.interior[d] as real * num(plan.bin_size[d]) == num(domain.sub_length[d]),
        plan.layers[d] as real * num(plan.bin_size[d]) >= num(
            ghost_reach(neighbor.cached_max_cutoff, domain),
        ) + num(neighbor.cached_max_cutoff),
        num(ghost_reach(neighbor.cached_max_cutoff, domain)) >= num(neighbor.cached_max_cutoff),
        0 <= plan.layers[d] <= i32::MAX,
{
    let cutoff: Scalar = neighbor.cached_max_cutoff;
    let reach: Scalar = ghost_reach(cutoff, domain);
    let n: int = plan.interior[d] as int;
    let bin: Scalar = plan.bin_size[d];
    assert(n >= 1);
    lemma_int_word(n);
    lemma_whole(int_word(n), n);
    let (length, count): (real, real) = (num(domain.sub_length[d]), n as real);
    assert(num(bin) == length / count);
    assert(length / count > 0real) by (nonlinear_arith)
        requires
            length > 0real,
            count >= 1real,
    ;
    lemma_divided(length, count);
    lemma_mul_order(length / count, count, 1real);
    lemma_order(cutoff, domain.ghost_cutoff);
    lemma_spanned(ar, cutoff, bin);
    lemma_spanned(ar, reach, bin);
    let (a, b): (int, int) = (
        quotient(ar, reach, bin).ceiling(),
        quotient(ar, cutoff, bin).ceiling(),
    );
    lemma_ceilings_grow(ar, cutoff, reach, bin);
    assert(0 <= plan.layers[d] <= i32::MAX);
    assert(plan.layers[d] == a + b);
    assert(plan.layers[d] as real == a as real + b as real);
    lemma_mul_add(num(bin), a as real, b as real);
}

/// A longer distance spans no fewer bins.
proof fn lemma_ceilings_grow<F: Fn(Op, Scalar, Scalar, Scalar) -> Scalar>(
    ar: F,
    near: Scalar,
    far: Scalar,
    bin: Scalar,
)
    requires
        num(bin) > 0real,
        num(near) <= num(far),
        exact_quotient(ar, near, bin),
        exact_quotient(ar, far, bin),
    ensures
        quotient(ar, near, bin).ceiling() <= quotient(ar, far, bin).ceiling(),
{
    let (p, q): (Scalar, Scalar) = (quotient(ar, near, bin), quotient(ar, far, bin));
    lemma_rounded(p);
    lemma_rounded(q);
    let (a, b, c): (real, real, real) = (num(near), num(far), num(bin));
    assert(a / c <= b / c) by (nonlinear_arith)
        requires
            a <= b,
            c > 0real,
    ;
    assert(p.ceiling() as real - 1real < q.ceiling() as real);
    assert((p.ceiling() - 1) as real == p.ceiling() as real - 1real);
}

/// The planned grid covers the cutoff: no pair within it is more cells apart than the
/// stencil was searched over.
pub proof fn planned_grid_covers_the_cutoff<F: Fn(Op, Scalar, Scalar, Scalar) -> Scalar>(
    ar: F,
    before: Neighbor,
    neighbor: Neighbor,
    domain: Domain,
    comm_size: i32,
    plan: GridPlan,
)
    requires
        is_plan(ar, before, domain, comm_size, plan),
        plan.fits(),
        has_grid(ar, neighbor, domain, plan),
        neighbor.same_settings(&before),
        exact_plan(ar, neighbor.cached_max_cutoff, domain, plan),
    ensures
        grid_covers(
            ar,
            neighbor,
            layers_of(plan),
            product(ar, neighbor.cached_max_cutoff, neighbor.cached_max_cutoff),
        ),
{
    let cutoff: Scalar = neighbor.cached_max_cutoff;
    let square: Scalar = product(ar, cutoff, cutoff);
    let layers: [i32; 3] = layers_of(plan);
    assert forall|d: int| 0 <= d < 3 implies {
        let span = layers[d] as real * num(#[trigger] neighbor.bin_size[d]);
        num(neighbor.bin_size[d]) > 0real && num(square) <= span * span
    } by {
        assert(planned(ar, before, domain, comm_size, plan, d));
        assert(neighbor.bin_count[d] == plan.bins(d));
        assert(exact_axis(ar, cutoff, domain, plan, d));
        lemma_planned_axis(ar, before, domain, comm_size, plan, d);
        assert(layers[d] as int == plan.layers[d] as int);
        let (c, span): (real, real) = (
            num(cutoff),
            layers[d] as real * num(neighbor.bin_size[d]),
        );
        assert(c * c <= span * span) by (nonlinear_arith)
            requires
                0real <= c <= span,
        ;
    }
}

/// Along axis `d` the position is no farther from the sub-domain than ghosts are.
pub open spec fn within_reach_of(
    cutoff: Scalar,
    domain: Domain,
    pos: Vec3,
    d: int,
) -> bool {
    let reach = num(ghost_reach(cutoff, domain));
    num(domain.sub_domain_low[d]) - reach <= num(pos[d]) < num(domain.sub_domain_high[d]) + reach
}

/// A coordinate that lies so many bins past the origin is put into the cell it lies in.
proof fn lemma_cell_holds<F: Fn(Op, Scalar, Scalar, Scalar) -> Scalar>(
    ar: F,
    neighbor: Neighbor,
    pos: Vec3,
    d: int,
    from: int,
    to: int,
)
    requires
        0 <= d < 3,
        0 <= from <= to <= neighbor.bin_count[d],
        num(neighbor.bin_size[d]) > 0real,
        exact_cell(ar, neighbor, pos, d),
        num(pos[d]) - num(neighbor.bin_origin[d]) >= from as real * num(neighbor.bin_size[d]),
        num(pos[d]) - num(neighbor.bin_origin[d]) < to as real * num(neighbor.bin_size[d]),
    ensures
        from <= axis_cell(ar, neighbor, pos, d) < to,
        lies_in_its_cell(ar, neighbor, pos, d),
{
    lemma_constants();
    let b: real = num(neighbor.bin_size[d]);
    let x: real = num(pos[d]) - num(neighbor.bin_origin[d]);
    let inverse: Scalar = quotient(ar, Scalar::one(), neighbor.bin_size[d]);
    let past: Scalar = difference(ar, pos[d], neighbor.bin_origin[d]);
    let at: Scalar = product(ar, past, inverse);
    lemma_rounded(at);
    let (f, y): (int, real) = (at.floor(), x * (1real / b));
    assert(num(at) == y);
    lemma_divided(1real, b);
    lemma_mul_order(x, 1real / b, b);
    assert(y * b == x);
    let (lo, hi): (real, real) = (from as real, to as real);
    assert(y >= lo) by (nonlinear_arith)
        requires
            y * b >= lo * b,
            b > 0real,
    ;
    assert(y < hi) by (nonlinear_arith)
        requires
            y * b < hi * b,
            b > 0real,
    ;
    assert(f as real <= y < f as real + 1real);
    assert((f + 1) as real == f as real + 1real);
    assert(from <= f < to);
    let g: real = f as real;
    assert(g * b <= y * b) by (nonlinear_arith)
        requires
            g <= y,
            b > 0real,
    ;
    assert(y * b < (g + 1real) * b) by (nonlinear_arith)
        requires
            y < g + 1real,
            b > 0real,
    ;
    lemma_mul_add(b, g, 1real);
    assert(axis_cell(ar, neighbor, pos, d) == f);
}

/// The distance from the origin of the grid.
proof fn lemma_past_origin<F: Fn(Op, Scalar, Scalar, Scalar) -> Scalar>(
    ar: F,
    neighbor: Neighbor,
    domain: Domain,
    plan: GridPlan,
    d: int,
)
    requires
        0 <= d < 3,
        0 <= plan.layers[d] <= i32::MAX,
        has_grid(ar, neighbor, domain, plan),
        exact_axis(ar, neighbor.cached_max_cutoff, domain, plan, d),
    ensures
        num(neighbor.bin_origin[d]) == num(domain.sub_domain_low[d]) - plan.layers[d] as real * num(
            neighbor.bin_size[d],
        ),
        neighbor.bin_count[d] == plan.bins(d),
{
    let n: int = plan.layers[d] as int;
    lemma_int_word(n);
    lemma_whole(int_word(n), n);
    assert(neighbor.bin_origin[d] == difference(
        ar,
        domain.sub_domain_low[d],
        product(ar, plan.bin_size[d], int_word(n)),
    ));
    assert(neighbor.bin_count[d] == plan.bins(d));
    lemma_mul_order(num(plan.bin_size[d]), n as real, 1real);
}

/// Every atom of the sub-domain and every ghost within reach of it is put into the
/// cell that it lies in.
pub proof fn atoms_within_reach_lie_in_their_cells<
    F: Fn(Op, Scalar, Scalar, Scalar) -> Scalar,
>(
    ar: F,
    before: Neighbor,
    neighbor: Neighbor,
    domain: Domain,
    comm_size: i32,
    plan: GridPlan,
    pos: Vec3,
    d: int,
)
    requires
        0 <= d < 3,
        is_plan(ar, before, domain, comm_size, plan),
        plan.fits(),
        has_grid(ar, neighbor, domain, plan),
        neighbor.same_settings(&before),
        exact_plan(ar, neighbor.cached_max_cutoff, domain, plan),
        exact_cell(ar, neighbor, pos, d),
        within_reach_of(neighbor.cached_max_cutoff, domain, pos, d),
    ensures
        lies_in_its_cell(ar, neighbor, pos, d),
{
    assert(planned(ar, before, domain, comm_size, plan, d));
    assert(neighbor.bin_count[d] == plan.bins(d));
    assert(exact_axis(ar, neighbor.cached_max_cutoff, domain, plan, d));
    lemma_planned_axis(ar, before, domain, comm_size, plan, d);
    lemma_past_origin(ar, neighbor, domain, plan, d);
    let (n, l): (int, int) = (plan.interior[d] as int, plan.layers[d] as int);
    let b: real = num(neighbor.bin_size[d]);
    assert((n + 2 * l) as real == n as real + (l as real + l as real));
    lemma_mul_add(b, n as real, l as real + l as real);
    lemma_mul_add(b, l as real, l as real);
    assert(0real * b == 0real);
    lemma_cell_holds(ar, neighbor, pos, d, 0, n + 2 * l);
}

/// Where the planned grid is used for two atoms of the sub-domain or its ghosts, and
/// their distance and that of their cells are exact, nothing about them is rounded.
pub proof fn pairs_within_reach_are_exact<F: Fn(Op, Scalar, Scalar, Scalar) -> Scalar>(
    ar: F,
    before: Neighbor,
    neighbor: Neighbor,
    domain: Domain,
    comm_size: i32,
    plan: GridPlan,
    a: Vec3,
    b: Vec3,
)
    requires
        is_plan(ar, before, domain, comm_size, plan),
        plan.fits(),
        has_grid(ar, neighbor, domain, plan),
        neighbor.same_settings(&before),
        exact_plan(ar, neighbor.cached_max_cutoff, domain, plan),
        forall|d: int|
            0 <= d < 3 ==> #[trigger] exact_cell(ar, neighbor, a, d) && within_reach_of(
                neighbor.cached_max_cutoff,
                domain,
                a,
                d,
            ),
        forall|d: int|
            0 <= d < 3 ==> #[trigger] exact_cell(ar, neighbor, b, d) && within_reach_of(
                neighbor.cached_max_cutoff,
                domain,
                b,
                d,
            ),
        is_num(distance_squared(ar, a, b), real_distance_squared(a, b)),
        ({
            let x = gap(axis_cell(ar, neighbor, b, 0) - axis_cell(ar, neighbor, a, 0));
            let y = gap(axis_cell(ar, neighbor, b, 1) - axis_cell(ar, neighbor, a, 1));
            let z = gap(axis_cell(ar, neighbor, b, 2) - axis_cell(ar, neighbor, a, 2));
            is_num(
                gap_squared(ar, neighbor.bin_size, x, y, z),
                real_gap_squared(neighbor.bin_size, x, y, z),
            )
        }),
    ensures
        pair_is_exact(ar, neighbor, a, b),
{
    assert forall|d: int| 0 <= d < 3 implies #[trigger] lies_in_its_cell(ar, neighbor, a, d) by {
        assert(exact_cell(ar, neighbor, a, d));
        atoms_within_reach_lie_in_their_cells(
            ar,
            before,
            neighbor,
            domain,
            comm_size,
            plan,
            a,
            d,
        );
    }
    assert forall|d: int| 0 <= d < 3 implies #[trigger] lies_in_its_cell(ar, neighbor, b, d) by {
        assert(exact_cell(ar, neighbor, b, d));
        atoms_within_reach_lie_in_their_cells(
            ar,
            before,
            neighbor,
            domain,
            comm_size,
            plan,
            b,
            d,
        );
    }
}

/// The cell of an atom of the sub-domain is none of the ghost layers.
proof fn lemma_interior_cell<F: Fn(Op, Scalar, Scalar, Scalar) -> Scalar>(
    ar: F,
    before: Neighbor,
    neighbor: Neighbor,
    domain: Domain,
    comm_size: i32,
    plan: GridPlan,
    pos: Vec3,
    d: int,
)
    requires
        0 <= d < 3,
        is_plan(ar, before, domain, comm_size, plan),
        plan.fits(),
        has_grid(ar, neighbor, domain, plan),
        neighbor.same_settings(&before),
        exact_plan(ar, neighbor.cached_max_cutoff, domain, plan),
        exact_cell(ar, neighbor, pos, d),
        num(domain.sub_domain_low[d]) <= num(pos[d]) < num(domain.sub_domain_high[d]),
    ensures
        plan.layers[d] <= axis_cell(ar, neighbor, pos, d) < neighbor.bin_count[d] - plan.layers[d],
        0 <= plan.layers[d] <= i32::MAX,
{
    assert(planned(ar, before, domain, comm_size, plan, d));
    assert(neighbor.bin_count[d] == plan.bins(d));
    assert(exact_axis(ar, neighbor.cached_max_cutoff, domain, plan, d));
    lemma_planned_axis(ar, before, domain, comm_size, plan, d);
    lemma_past_origin(ar, neighbor, domain, plan, d);
    let (n, l): (int, int) = (plan.interior[d] as int, plan.layers[d] as int);
    let b: real = num(neighbor.bin_size[d]);
    assert((n + l) as real == n as real + l as real);
    lemma_mul_add(b, n as real, l as real);
    lemma_cell_holds(ar, neighbor, pos, d, l, n + l);
}

/// The atom lies in the sub-domain and is put into its cell without rounding.
pub open spec fn exact_interior<F: Fn(Op, Scalar, Scalar, Scalar) -> Scalar>(
    ar: F,
    neighbor: Neighbor,
    domain: Domain,
    pos: Vec3,
) -> bool {
    forall|d: int|
        0 <= d < 3 ==> #[trigger] exact_cell(ar, neighbor, pos, d) && num(
            domain.sub_domain_low[d],
        ) <= num(pos[d]) < num(domain.sub_domain_high[d])
}

/// From the cells of atoms inside the sub-domain the stencil never leaves the planned
/// grid, so the list of these atoms can be built.
pub proof fn stencil_fits_the_sub_domain<F: Fn(Op, Scalar, Scalar, Scalar) -> Scalar>(
    ar: F,
    before: Neighbor,
    neighbor: Neighbor,
    domain: Domain,
    comm_size: i32,
    plan: GridPlan,
    pos: Seq<Vec3>,
    nlocal: int,
)
    requires
        is_plan(ar, before, domain, comm_size, plan),
        plan.fits(),
        has_grid(ar, neighbor, domain, plan),
        neighbor.same_settings(&before),
        exact_plan(ar, neighbor.cached_max_cutoff, domain, plan),
        0 <= nlocal <= pos.len(),
        forall|i: int| 0 <= i < nlocal ==> exact_interior(ar, neighbor, domain, #[trigger] pos[i]),
    ensures
        stencil_fits(
            cells_of(ar, neighbor, pos, pos.len() as int),
            neighbor.list_stencil(),
            neighbor.newton,
            nlocal,
            neighbor.bin_total_cells as int,
        ),
{
    let cells: Seq<u32> = cells_of(ar, neighbor, pos, pos.len() as int);
    let stencil: Seq<i32> = neighbor.list_stencil();
    let full: Seq<i32> = neighbor.bin_stencil@;
    let layers: [i32; 3] = layers_of(plan);
    let cutoff: Scalar = neighbor.cached_max_cutoff;
    let near: spec_fn(u32, u32, u32) -> bool = within_cutoff(
        ar,
        plan.bin_size,
        product(ar, cutoff, cutoff),
    );
    assert forall|i: int, k: int|
        0 <= i < nlocal && 0 <= k < stencil.len() && (neighbor.newton || stencil[k] != 0) implies 0
        <= (#[trigger] cells[i]) + (#[trigger] stencil[k]) < neighbor.bin_total_cells by {
        let o: i32 = stencil[k];
        let p: Vec3 = pos[i];
        assert(stencil.contains(o));
        stencil_is_exact(near, neighbor.bin_count, layers, o);
        forward_is_positive_half(full, o);
        assert(full.contains(o));
        assert(exact_interior(ar, neighbor, domain, p));
        assert forall|d: int| 0 <= d < 3 implies #[trigger] plan.layers[d] <= axis_cell(
            ar,
            neighbor,
            p,
            d,
        ) && axis_cell(ar, neighbor, p, d) < neighbor.bin_count[d] - plan.layers[d] && 0
            <= plan.layers[d] <= i32::MAX by {
            assert(exact_cell(ar, neighbor, p, d));
            lemma_interior_cell(ar, before, neighbor, domain, comm_size, plan, p, d);
        }
        assert(plan.layers[0] <= i32::MAX && plan.layers[1] <= i32::MAX && plan.layers[2]
            <= i32::MAX);
        stencil_stays_in_grid(
            near,
            neighbor.bin_count,
            layers,
            axis_cell(ar, neighbor, p, 0),
            axis_cell(ar, neighbor, p, 1),
            axis_cell(ar, neighbor, p, 2),
            o,
        );
        lemma_cell_bound(ar, neighbor, p);
        assert(cells[i] as int == cell_of(ar, neighbor, p));
    }
}

} // verus!
