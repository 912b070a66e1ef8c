//! How far lists and ghosts reach, where no operation rounds.

use crate::all_pairs::{full_list_is_all_pairs, half_list_is_all_pairs, pair_is_exact};
use crate::atom::Atom;
use crate::bond::lemma_int_word;
use crate::borders::need_of;
use crate::coverage::{
    exact_cell, exact_plan, layers_of, pairs_within_reach_are_exact,
    planned_grid_covers_the_cutoff, within_reach_of,
};
use crate::domain::{is_difference, Domain};
use crate::exact::{
    exact_difference, exact_product, exact_quotient, exact_sum, is_num, lemma_constants,
    lemma_divided, lemma_mul_add, lemma_mul_order, lemma_order, lemma_rounded,
    lemma_small_numbers, lemma_whole, num,
};
use crate::geometry::{apart, lemma_grow_factor, lemma_square_order, point_of};
use crate::ghosts::in_skin;
use crate::neighbor::{
    any_moved, axis_cell, cells_of, drift_buffer, has_grid, is_plan, pair_cutoff, required_bin, with_cutoffs,
    GridPlan, Neighbor,
};
use crate::neighbor_list::{distance_squared, row, within_reach};
use crate::reach::{
    close_pairs_are_within_their_reach, closeness_is_mutual, computed_distance_is_the_distance,
    exact_allowance, exact_apart, exact_move, exact_reach, move_of, shifted,
    unlisted_atoms_do_not_touch,
};
use crate::scalar::{
    difference, int_word, product, quotient, sum, Op, Scalar, Vec3,
};
use crate::stencil::{gap, gap_squared};
use vstd::prelude::*;

verus! {

/// The sizes of a box are the lengths between its bounds.
pub proof fn sizes_are_lengths<F: Fn(Op, Scalar, Scalar, Scalar) -> Scalar>(
    ar: F,
    size: Vec3,
    high: Vec3,
    low: Vec3,
    d: int,
)
    requires
        0 <= d < 3,
        is_difference(ar, size, high, low),
        exact_difference(ar, high[d], low[d]),
    ensures
        num(size[d]) == num(high[d]) - num(low[d]),
{
}

/// The cutoff, the drift and the margin of ghosts are computed without rounding.
pub open spec fn exact_cutoffs<F: Fn(Op, Scalar, Scalar, Scalar) -> Scalar>(
    ar: F,
    neighbor: Neighbor,
    max_skin: Scalar,
    min_skin: Scalar,
) -> bool {
    let twice = product(ar, Scalar::two(), max_skin);
    let cutoff = product(ar, twice, neighbor.skin_fraction);
    let more = difference(ar, neighbor.skin_fraction, Scalar::one());
    let drift = product(ar, more, min_skin);
    let limit = product(ar, Scalar::greatest(), Scalar::half());
    &&& !max_skin.nan() && !min_skin.nan()
    &&& exact_product(ar, Scalar::two(), max_skin)
    &&& exact_product(ar, twice, neighbor.skin_fraction)
    &&& exact_product(ar, Scalar::greatest(), Scalar::half())
    &&& num(min_skin) < num(limit)
    &&& exact_difference(ar, neighbor.skin_fraction, Scalar::one())
    &&& exact_product(ar, more, min_skin)
    &&& exact_product(ar, Scalar::two(), drift)
    &&& exact_sum(ar, cutoff, product(ar, Scalar::two(), drift))
}

/// The cutoff reaches as far as any two atoms do, whose radii are at most the greatest,
/// and two of the greatest reach no less far. Ghosts are taken from the cutoff and twice
/// the way that an atom may move before the list is built anew, or from farther away.
pub proof fn cutoffs_cover_every_pair<F: Fn(Op, Scalar, Scalar, Scalar) -> Scalar>(
    ar: F,
    neighbor: Neighbor,
    domain: Domain,
    comm_size: i32,
    max_skin: Scalar,
    min_skin: Scalar,
    a: real,
    b: real,
)
    requires
        exact_cutoffs(ar, neighbor, max_skin, min_skin),
        num(max_skin) > 0real,
        num(neighbor.skin_fraction) >= 0real,
        0real <= a <= num(max_skin),
        0real <= b <= num(max_skin),
        !domain.ghost_cutoff.nan(),
    ensures
        ({
            let new = with_cutoffs(ar, neighbor, domain, comm_size, max_skin, min_skin);
            let skin = num(neighbor.skin_fraction);
            let cutoff = num(new.cached_max_cutoff);
            let drift = (skin - 1real) * num(min_skin);
            &&& !new.cached_max_cutoff.nan()
            &&& cutoff == (num(max_skin) + num(max_skin)) * skin
            &&& (a + b) * skin <= cutoff
            &&& num(new.ghost_cutoff) >= cutoff + drift + drift
            &&& num(new.ghost_cutoff) >= num(domain.ghost_cutoff)
            &&& num(new.ghost_cutoff) == cutoff + drift + drift || num(new.ghost_cutoff) == num(
                domain.ghost_cutoff,
            )
        }),
{
    lemma_constants();
    lemma_small_numbers();
    lemma_order(Scalar::zero(), max_skin);
    lemma_order(min_skin, product(ar, Scalar::greatest(), Scalar::half()));
    let cutoff: Scalar = pair_cutoff(ar, neighbor, max_skin);
    let margin: Scalar = sum(ar, cutoff, drift_buffer(ar, neighbor, min_skin));
    lemma_order(margin, domain.ghost_cutoff);
    let (m, s): (real, real) = (num(max_skin), num(neighbor.skin_fraction));
    assert(2real * m == m + m);
    lemma_grow_factor(s, a + b, m + m);
    lemma_mul_order(s, a + b, 1real);
    lemma_mul_order(s, m + m, 1real);
}

/// Bins are no smaller than the cutoff; with several processes than half of it.
pub proof fn bins_are_no_smaller_than_needed<F: Fn(Op, Scalar, Scalar, Scalar) -> Scalar>(
    ar: F,
    neighbor: Neighbor,
    domain: Domain,
    comm_size: i32,
    max_skin: Scalar,
    min_skin: Scalar,
)
    requires
        exact_cutoffs(ar, neighbor, max_skin, min_skin),
        num(max_skin) > 0real,
        !neighbor.bin_min_size.nan(),
        exact_product(ar, pair_cutoff(ar, neighbor, max_skin), Scalar::half()),
    ensures
        ({
            let new = with_cutoffs(ar, neighbor, domain, comm_size, max_skin, min_skin);
            let (bin, cutoff) = (num(new.bin_min_size), num(new.cached_max_cutoff));
            &&& comm_size <= 1 ==> bin >= cutoff
            &&& comm_size > 1 ==> bin + bin >= cutoff
            &&& bin >= num(neighbor.bin_min_size)
            &&& bin == num(neighbor.bin_min_size) || comm_size <= 1 && bin == cutoff || comm_size
                > 1 && bin + bin == cutoff
        }),
{
    lemma_constants();
    lemma_small_numbers();
    lemma_order(Scalar::zero(), max_skin);
    let cutoff: Scalar = pair_cutoff(ar, neighbor, max_skin);
    let needed: Scalar = required_bin(ar, cutoff, comm_size);
    lemma_order(neighbor.bin_min_size, needed);
    let (c, h): (real, real) = (num(cutoff), num(Scalar::half()));
    lemma_mul_add(c, h, h);
    assert(c * 1real == c);
}

/// An atom is a ghost of a neighbour exactly if it lies within the ghost cutoff of the
/// face between them; without a cutoff within four of its radii.
pub proof fn ghosts_lie_near_the_face<F: Fn(Op, Scalar, Scalar, Scalar) -> Scalar>(
    ar: F,
    atoms: Atom,
    domain: Domain,
    dim: int,
    swap: int,
    ghost_cutoff: Scalar,
    i: int,
    margin: real,
)
    requires
        0 <= dim < 3,
        swap == 0 || swap == 1,
        !atoms.pos@[i][dim].nan(),
        !ghost_cutoff.nan(),
        ({
            let cut = if num(ghost_cutoff) > 0real {
                ghost_cutoff
            } else {
                product(ar, atoms.cutoff_radius@[i], Scalar::four())
            };
            &&& exact_product(ar, atoms.cutoff_radius@[i], Scalar::four())
            &&& exact_sum(ar, domain.sub_domain_low[dim], cut)
            &&& exact_difference(ar, domain.sub_domain_high[dim], cut)
        }),
        margin == if num(ghost_cutoff) > 0real {
            num(ghost_cutoff)
        } else {
            4real * num(atoms.cutoff_radius@[i])
        },
    ensures
        in_skin(ar, atoms, domain, dim, swap, ghost_cutoff, i) <==> if swap == 0 {
            num(atoms.pos@[i][dim]) - num(domain.sub_domain_low[dim]) < margin
        } else {
            num(domain.sub_domain_high[dim]) - num(atoms.pos@[i][dim]) <= margin
        },
{
    lemma_constants();
    lemma_small_numbers();
    lemma_order(Scalar::zero(), ghost_cutoff);
    let x: Scalar = atoms.pos@[i][dim];
    let cut: Scalar = if num(ghost_cutoff) > 0real {
        ghost_cutoff
    } else {
        product(ar, atoms.cutoff_radius@[i], Scalar::four())
    };
    lemma_order(x, sum(ar, domain.sub_domain_low[dim], cut));
    lemma_order(x, difference(ar, domain.sub_domain_high[dim], cut));
    lemma_mul_order(num(atoms.cutoff_radius@[i]), 4real, 1real);
}

/// Ghosts travel as many processes as the ghost cutoff spans, and no more than needed;
/// at least one, and only one where there is a single process.
pub proof fn ghosts_travel_far_enough<F: Fn(Op, Scalar, Scalar, Scalar) -> Scalar>(
    ar: F,
    decomp: i32,
    ghost_cutoff: Scalar,
    sub_length: Scalar,
)
    requires
        num(sub_length) > 0real,
        exact_quotient(ar, ghost_cutoff, sub_length),
        num(ghost_cutoff) <= i32::MAX as real * num(sub_length),
    ensures
        ({
            let hops = need_of(ar, decomp, ghost_cutoff, sub_length);
            &&& hops >= 1
            &&& decomp == 1 ==> hops == 1
            &&& decomp != 1 ==> hops as real * num(sub_length) >= num(ghost_cutoff)
            &&& decomp != 1 && hops > 1 ==> (hops as real - 1real) * num(sub_length) < num(
                ghost_cutoff,
            )
        }),
{
    let q: Scalar = quotient(ar, ghost_cutoff, sub_length);
    lemma_rounded(q);
    let (c, l): (real, real) = (num(ghost_cutoff), num(sub_length));
    lemma_divided(c, l);
    let y: real = c / l;
    let up: int = q.ceiling();
    if y > i32::MAX as real {
        lemma_more(l, i32::MAX as real, y);
        lemma_mul_order(l, y, 1real);
        lemma_mul_order(l, i32::MAX as real, 1real);
    }
    assert(up as real - 1real < i32::MAX as real);
    assert((up - 1) as real == up as real - 1real);
    assert(up <= i32::MAX);
    lemma_mul_order(l, y, 1real);
    let hops: int = need_of(ar, decomp, ghost_cutoff, sub_length);
    lemma_mul_order(l, hops as real, 1real);
    if decomp != 1 {
        assert(hops as real >= y);
        lemma_grow_factor(l, y, hops as real);
        if hops > 1 {
            assert(hops == up);
            let less: real = hops as real - 1real;
            lemma_more(l, less, y);
            lemma_mul_order(l, less, 1real);
        }
    }
}

proof fn lemma_more(l: real, a: real, b: real)
    requires
        l > 0real,
        a < b,
    ensures
        l * a < l * b,
{
    assert(l * a < l * b) by (nonlinear_arith)
        requires
            l > 0real,
            a < b,
    ;
}

/// The distance over whole cells is computed without rounding.
pub open spec fn exact_gaps<F: Fn(Op, Scalar, Scalar, Scalar) -> Scalar>(
    ar: F,
    size: Vec3,
    a: u32,
    b: u32,
    c: u32,
) -> bool {
    let x = product(ar, int_word(a as int), size[0]);
    let y = product(ar, int_word(b as int), size[1]);
    let z = product(ar, int_word(c as int), size[2]);
    let (xx, yy, zz) = (product(ar, x, x), product(ar, y, y), product(ar, z, z));
    &&& exact_product(ar, int_word(a as int), size[0])
    &&& exact_product(ar, int_word(b as int), size[1])
    &&& exact_product(ar, int_word(c as int), size[2])
    &&& exact_product(ar, x, x) && exact_product(ar, y, y) && exact_product(ar, z, z)
    &&& exact_sum(ar, xx, yy)
    &&& exact_sum(ar, sum(ar, xx, yy), zz)
}

/// The distance over whole cells is the number of cells times their size, along each
/// axis.
pub proof fn gaps_span_whole_cells<F: Fn(Op, Scalar, Scalar, Scalar) -> Scalar>(
    ar: F,
    size: Vec3,
    a: u32,
    b: u32,
    c: u32,
)
    requires
        exact_gaps(ar, size, a, b, c),
    ensures
        ({
            let x = a as int as real * num(size[0]);
            let y = b as int as real * num(size[1]);
            let z = c as int as real * num(size[2]);
            is_num(gap_squared(ar, size, a, b, c), x * x + y * y + z * z)
        }),
{
    lemma_int_word(a as int);
    lemma_int_word(b as int);
    lemma_int_word(c as int);
    lemma_whole(int_word(a as int), a as int);
    lemma_whole(int_word(b as int), b as int);
    lemma_whole(int_word(c as int), c as int);
}

/// Two atoms of the sub-domain or its ghosts are put into their cells, and compared,
/// without rounding.
pub open spec fn exact_comparison<F: Fn(Op, Scalar, Scalar, Scalar) -> Scalar>(
    ar: F,
    neighbor: Neighbor,
    domain: Domain,
    a: Vec3,
    b: Vec3,
) -> bool {
    let x = gap(axis_cell(ar, neighbor, b, 0) - axis_cell(ar, neighbor, a, 0));
    let y = gap(axis_cell(ar, neighbor, b, 1) - axis_cell(ar, neighbor, a, 1));
    let z = gap(axis_cell(ar, neighbor, b, 2) - axis_cell(ar, neighbor, a, 2));
    &&& forall|d: int|
        0 <= d < 3 ==> #[trigger] exact_cell(ar, neighbor, a, d) && within_reach_of(
            neighbor.cached_max_cutoff,
            domain,
            a,
            d,
        )
    &&& forall|d: int|
        0 <= d < 3 ==> #[trigger] exact_cell(ar, neighbor, b, d) && within_reach_of(
            neighbor.cached_max_cutoff,
            domain,
            b,
            d,
        )
    &&& exact_apart(ar, a, b)
    &&& exact_gaps(ar, neighbor.bin_size, x, y, z)
}

proof fn lemma_comparison<F: Fn(Op, Scalar, Scalar, Scalar) -> Scalar>(
    ar: F,
    before: Neighbor,
    neighbor: Neighbor,
    domain: Domain,
    comm_size: i32,
    plan: GridPlan,
    a: Vec3,
    b: Vec3,
)
    requires
        is_plan(ar, before, domain, comm_size, plan),
        plan.fits(),
        has_grid(ar, neighbor, domain, plan),
        neighbor.same_settings(&before),
        exact_plan(ar, neighbor.cached_max_cutoff, domain, plan),
        exact_comparison(ar, neighbor, domain, a, b),
    ensures
        pair_is_exact(ar, neighbor, a, b),
{
    computed_distance_is_the_distance(ar, a, b);
    gaps_span_whole_cells(
        ar,
        neighbor.bin_size,
        gap(axis_cell(ar, neighbor, b, 0) - axis_cell(ar, neighbor, a, 0)),
        gap(axis_cell(ar, neighbor, b, 1) - axis_cell(ar, neighbor, a, 1)),
        gap(axis_cell(ar, neighbor, b, 2) - axis_cell(ar, neighbor, a, 2)),
    );
    pairs_within_reach_are_exact(ar, before, neighbor, domain, comm_size, plan, a, b);
}

/// What is within its own reach is within the cutoff of the grid.
proof fn lemma_within_the_grid<F: Fn(Op, Scalar, Scalar, Scalar) -> Scalar>(
    ar: F,
    neighbor: Neighbor,
    a: Vec3,
    b: Vec3,
    reach: real,
)
    requires
        exact_apart(ar, a, b),
        exact_product(ar, neighbor.cached_max_cutoff, neighbor.cached_max_cutoff),
        0real <= reach <= num(neighbor.cached_max_cutoff),
        apart(point_of(a), point_of(b)) < reach * reach,
    ensures
        distance_squared(ar, a, b).below(
            product(ar, neighbor.cached_max_cutoff, neighbor.cached_max_cutoff),
        ),
{
    computed_distance_is_the_distance(ar, a, b);
    lemma_square_order(reach, num(neighbor.cached_max_cutoff));
    lemma_order(
        distance_squared(ar, a, b),
        product(ar, neighbor.cached_max_cutoff, neighbor.cached_max_cutoff),
    );
}

/// A full list that is built on the planned grid names exactly the other atoms whose
/// distance is below the sum of both radii times the skin fraction.
pub proof fn full_lists_name_the_atoms_within_reach<F: Fn(Op, Scalar, Scalar, Scalar) -> Scalar>(
    ar: F,
    before: Neighbor,
    neighbor: Neighbor,
    domain: Domain,
    comm_size: i32,
    plan: GridPlan,
    pos: Seq<Vec3>,
    radius: Seq<Scalar>,
    i: int,
    j: u32,
)
    requires
        is_plan(ar, before, domain, comm_size, plan),
        plan.fits(),
        has_grid(ar, neighbor, domain, plan),
        neighbor.same_settings(&before),
        exact_plan(ar, neighbor.cached_max_cutoff, domain, plan),
        0 <= i < pos.len() <= u32::MAX,
        j < pos.len(),
        exact_comparison(ar, neighbor, domain, pos[i], pos[j as int]),
        exact_reach(ar, radius[i], radius[j as int], neighbor.skin_fraction),
        0real <= (num(radius[i]) + num(radius[j as int])) * num(neighbor.skin_fraction) <= num(
            neighbor.cached_max_cutoff,
        ),
    ensures
        ({
            let near = within_reach(
                ar,
                pos,
                radius,
                None,
                product(ar, neighbor.skin_fraction, neighbor.skin_fraction),
            );
            let list = row(
                cells_of(ar, neighbor, pos, pos.len() as int),
                neighbor.bin_stencil@,
                neighbor.bin_stencil_self,
                false,
                near,
                i,
            );
            let reach = (num(radius[i]) + num(radius[j as int])) * num(neighbor.skin_fraction);
            &&& list.no_duplicates()
            &&& list.contains(j) <==> j != i && apart(point_of(pos[i]), point_of(pos[j as int]))
                < reach * reach
        }),
{
    let skin: Scalar = neighbor.skin_fraction;
    let near: spec_fn(int, int) -> bool = within_reach(
        ar,
        pos,
        radius,
        None,
        product(ar, skin, skin),
    );
    let cutoff_sq: Scalar = product(ar, neighbor.cached_max_cutoff, neighbor.cached_max_cutoff);
    let reach: real = (num(radius[i]) + num(radius[j as int])) * num(skin);
    close_pairs_are_within_their_reach(ar, pos, radius, skin, i, j as int);
    lemma_comparison(ar, before, neighbor, domain, comm_size, plan, pos[i], pos[j as int]);
    planned_grid_covers_the_cutoff(ar, before, neighbor, domain, comm_size, plan);
    if near(i, j as int) {
        lemma_within_the_grid(ar, neighbor, pos[i], pos[j as int], reach);
    }
    full_list_is_all_pairs(ar, neighbor, layers_of(plan), cutoff_sq, pos, near, i, j);
}

/// In a half list that is built on the planned grid exactly one of two atoms names the
/// other where their distance is below the sum of both radii times the skin fraction,
/// and neither does where it is not.
pub proof fn half_lists_name_each_pair_within_reach_once<
    F: Fn(Op, Scalar, Scalar, Scalar) -> Scalar,
>(
    ar: F,
    before: Neighbor,
    neighbor: Neighbor,
    domain: Domain,
    comm_size: i32,
    plan: GridPlan,
    pos: Seq<Vec3>,
    radius: Seq<Scalar>,
    i: u32,
    j: u32,
)
    requires
        is_plan(ar, before, domain, comm_size, plan),
        plan.fits(),
        has_grid(ar, neighbor, domain, plan),
        neighbor.same_settings(&before),
        exact_plan(ar, neighbor.cached_max_cutoff, domain, plan),
        i < pos.len() <= u32::MAX,
        j < pos.len(),
        i != j,
        exact_comparison(ar, neighbor, domain, pos[i as int], pos[j as int]),
        exact_apart(ar, pos[j as int], pos[i as int]),
        exact_reach(ar, radius[i as int], radius[j as int], neighbor.skin_fraction),
        exact_reach(ar, radius[j as int], radius[i as int], neighbor.skin_fraction),
        0real <= (num(radius[i as int]) + num(radius[j as int])) * num(neighbor.skin_fraction)
            <= num(neighbor.cached_max_cutoff),
    ensures
        ({
            let near = within_reach(
                ar,
                pos,
                radius,
                None,
                product(ar, neighbor.skin_fraction, neighbor.skin_fraction),
            );
            let cells = cells_of(ar, neighbor, pos, pos.len() as int);
            let stencil = neighbor.bin_stencil_forward@;
            let has_self = neighbor.bin_stencil_self;
            let ri = row(cells, stencil, has_self, true, near, i as int);
            let rj = row(cells, stencil, has_self, true, near, j as int);
            let reach = (num(radius[i as int]) + num(radius[j as int])) * num(
                neighbor.skin_fraction,
            );
            let close = apart(point_of(pos[i as int]), point_of(pos[j as int])) < reach * reach;
            &&& close ==> ri.contains(j) != rj.contains(i)
            &&& !close ==> !ri.contains(j) && !rj.contains(i)
        }),
{
    let skin: Scalar = neighbor.skin_fraction;
    let near: spec_fn(int, int) -> bool = within_reach(
        ar,
        pos,
        radius,
        None,
        product(ar, skin, skin),
    );
    let cutoff_sq: Scalar = product(ar, neighbor.cached_max_cutoff, neighbor.cached_max_cutoff);
    let reach: real = (num(radius[i as int]) + num(radius[j as int])) * num(skin);
    close_pairs_are_within_their_reach(ar, pos, radius, skin, i as int, j as int);
    closeness_is_mutual(ar, pos, radius, skin, i as int, j as int);
    lemma_comparison(
        ar,
        before,
        neighbor,
        domain,
        comm_size,
        plan,
        pos[i as int],
        pos[j as int],
    );
    planned_grid_covers_the_cutoff(ar, before, neighbor, domain, comm_size, plan);
    if near(i as int, j as int) {
        lemma_within_the_grid(ar, neighbor, pos[i as int], pos[j as int], reach);
    }
    half_list_is_all_pairs(ar, neighbor, layers_of(plan), cutoff_sq, pos, near, i, j);
}

/// What the list is for: as long as no new list is asked for, two atoms that touch are
/// still in it, however they moved since it was built.
pub proof fn touching_atoms_are_listed<F: Fn(Op, Scalar, Scalar, Scalar) -> Scalar>(
    ar: F,
    before: Neighbor,
    neighbor: Neighbor,
    domain: Domain,
    comm_size: i32,
    plan: GridPlan,
    built: Seq<Vec3>,
    radius: Seq<Scalar>,
    now: Seq<Vec3>,
    i: int,
    j: u32,
)
    requires
        is_plan(ar, before, domain, comm_size, plan),
        plan.fits(),
        has_grid(ar, neighbor, domain, plan),
        neighbor.same_settings(&before),
        exact_plan(ar, neighbor.cached_max_cutoff, domain, plan),
        built.len() <= u32::MAX,
        neighbor.last_build_pos@.len() <= built.len(),
        0 <= i < neighbor.last_build_pos@.len(),
        j < neighbor.last_build_pos@.len(),
        j != i,
        neighbor.last_build_pos@[i] == built[i],
        neighbor.last_build_pos@[j as int] == built[j as int],
        exact_comparison(ar, neighbor, domain, built[i], built[j as int]),
        exact_reach(ar, radius[i], radius[j as int], neighbor.skin_fraction),
        (num(radius[i]) + num(radius[j as int])) * num(neighbor.skin_fraction) <= num(
            neighbor.cached_max_cutoff,
        ),
        num(neighbor.skin_fraction) >= 1real,
        0real <= num(neighbor.cached_min_skin) <= num(radius[i]),
        num(neighbor.cached_min_skin) <= num(radius[j as int]),
        exact_allowance(ar, neighbor),
        exact_move(ar, neighbor, built[i], now[i]),
        exact_move(ar, neighbor, built[j as int], now[j as int]),
        !any_moved(ar, neighbor, now),
        ({
            let touch = num(radius[i]) + num(radius[j as int]);
            apart(
                shifted(point_of(built[i]), move_of(neighbor, built[i], now[i])),
                shifted(
                    point_of(built[j as int]),
                    move_of(neighbor, built[j as int], now[j as int]),
                ),
            ) < touch * touch
        }),
    ensures
        row(
            cells_of(ar, neighbor, built, built.len() as int),
            neighbor.bin_stencil@,
            neighbor.bin_stencil_self,
            false,
            within_reach(
                ar,
                built,
                radius,
                None,
                product(ar, neighbor.skin_fraction, neighbor.skin_fraction),
            ),
            i,
        ).contains(j),
{
    let (a, b): (real, real) = (num(radius[i]), num(radius[j as int]));
    let s: real = num(neighbor.skin_fraction);
    lemma_grow_factor(a + b, 1real, s);
    assert((a + b) * 1real == a + b);
    full_lists_name_the_atoms_within_reach(
        ar,
        before,
        neighbor,
        domain,
        comm_size,
        plan,
        built,
        radius,
        i,
        j,
    );
    let reach: real = (a + b) * s;
    if apart(point_of(built[i]), point_of(built[j as int])) >= reach * reach {
        unlisted_atoms_do_not_touch(
            ar,
            neighbor,
            now,
            i,
            j as int,
            point_of(built[i]),
            point_of(built[j as int]),
            a,
            b,
        );
    }
}

} // verus!
