//! What wrapping and shrink-wrapping do to atoms and box, where no operation rounds.

use crate::atom::{Atom, Record};
use crate::constants::{hundredth_is_what_it_says, tolerance_is_what_it_says};
use crate::domain::{
    escaped, fitted, highest, is_part, lowest, padding_of, refits, refitted, stays, tolerance,
    wrapped_from, wrapped_record, BoundaryType, Domain, DomainConfig,
};
use crate::exact::{
    exact_difference, exact_product, exact_sum, lemma_constants, lemma_order, num,
};
use crate::reach::{lemma_absolute, lemma_limits};
use crate::scalar::{difference, sum, Op, Scalar, Vec3};
use crate::unrounded::wrapping_keeps_the_unwrapped_position;
use vstd::prelude::*;

verus! {

/// Axis `d` of the box has a length, the bounds agree with it, and a coordinate is
/// wrapped along it without rounding and by at most one box.
pub open spec fn exact_wrap<F: Fn(Op, Scalar, Scalar, Scalar) -> Scalar>(
    ar: F,
    domain: Domain,
    pos: Scalar,
    d: int,
) -> bool {
    let (low, size) = (domain.boundaries_low[d], domain.size[d]);
    &&& !pos.nan() && !low.nan() && !size.nan() && !domain.boundaries_high[d].nan()
    &&& num(size) > 0real
    &&& num(domain.boundaries_high[d]) == num(low) + num(size)
    &&& num(low) - num(size) <= num(pos) < num(low) + num(size) + num(size)
    &&& exact_sum(ar, low, size)
    &&& exact_sum(ar, pos, size)
    &&& exact_difference(ar, pos, size)
}

/// An atom that is wrapped stays the atom it is. Along a periodic axis it comes into the
/// box, and its position with the boxes that it crossed counted in is the same; along
/// any other axis nothing changes.
pub proof fn wrapped_atoms_keep_their_unwrapped_place<
    F: Fn(Op, Scalar, Scalar, Scalar) -> Scalar,
>(ar: F, domain: Domain, rec: Record, d: int)
    requires
        0 <= d < 3,
        i32::MIN < rec.image[d] < i32::MAX,
        exact_wrap(ar, domain, rec.pos[d], d),
    ensures
        ({
            let new = wrapped_record(ar, domain, rec);
            let (low, high) = (num(domain.boundaries_low[d]), num(domain.boundaries_high[d]));
            let size = num(domain.size[d]);
            &&& new == (Record { pos: new.pos, image: new.image, ..rec })
            &&& domain.boundary_type[d] == BoundaryType::Periodic ==> {
                &&& low <= num(new.pos[d]) < high
                &&& num(new.pos[d]) + new.image[d] as real * size == num(rec.pos[d])
                    + rec.image[d] as real * size
            }
            &&& domain.boundary_type[d] != BoundaryType::Periodic ==> new.pos[d] == rec.pos[d]
                && new.image[d] == rec.image[d]
        }),
{
    wrapping_keeps_the_unwrapped_position(
        ar,
        rec.pos[d],
        domain.boundaries_low[d],
        domain.size[d],
        rec.image[d] as int,
    );
}

/// An atom stays exactly if it is in the box along every axis that is not periodic.
pub proof fn atoms_stay_inside_fixed_walls(domain: Domain, pos: Vec3)
    requires
        forall|d: int|
            0 <= d < 3 ==> !(#[trigger] pos[d]).nan() && !domain.boundaries_low[d].nan()
                && !domain.boundaries_high[d].nan(),
    ensures
        stays(domain, pos) <==> forall|d: int|
            0 <= d < 3 && domain.boundary_type[d] != BoundaryType::Periodic ==> num(
                domain.boundaries_low[d],
            ) <= num(#[trigger] pos[d]) < num(domain.boundaries_high[d]),
{
    assert forall|d: int| 0 <= d < 3 implies ((#[trigger] pos[d]).below(domain.boundaries_low[d])
        <==> num(pos[d]) < num(domain.boundaries_low[d])) && (pos[d].at_least(
        domain.boundaries_high[d],
    ) <==> num(pos[d]) >= num(domain.boundaries_high[d])) by {
        lemma_order(pos[d], domain.boundaries_low[d]);
        lemma_order(pos[d], domain.boundaries_high[d]);
    }
}

/// Every local atom that is not removed is inside the box along all axes, and the ghosts
/// are left alone.
pub proof fn remaining_atoms_are_in_the_box<F: Fn(Op, Scalar, Scalar, Scalar) -> Scalar>(
    ar: F,
    domain: Domain,
    atoms: Atom,
    i: int,
)
    requires
        0 <= i < atoms.records().len(),
        atoms.wf(),
        i < atoms.nlocal ==> forall|d: int|
            0 <= d < 3 ==> exact_wrap(ar, domain, #[trigger] atoms.pos@[i][d], d) && i32::MIN
                < atoms.image@[i][d] < i32::MAX,
    ensures
        i < atoms.nlocal && !escaped(domain, atoms)[i] ==> forall|d: int|
            0 <= d < 3 ==> num(domain.boundaries_low[d]) <= num(
                #[trigger] wrapped_from(ar, domain, atoms, 0)[i].pos[d],
            ) < num(domain.boundaries_high[d]),
        i >= atoms.nlocal ==> wrapped_from(ar, domain, atoms, 0)[i] == atoms.record(i),
{
    if i < atoms.nlocal && !escaped(domain, atoms)[i] {
        let rec: Record = atoms.record(i);
        assert(rec.pos == atoms.pos@[i] && rec.image == atoms.image@[i]);
        atoms_stay_at(domain, atoms.pos@[i]);
        assert forall|d: int| 0 <= d < 3 implies num(domain.boundaries_low[d]) <= num(
            #[trigger] wrapped_from(ar, domain, atoms, 0)[i].pos[d],
        ) < num(domain.boundaries_high[d]) by {
            assert(exact_wrap(ar, domain, atoms.pos@[i][d], d));
            wrapped_atoms_keep_their_unwrapped_place(ar, domain, rec, d);
            lemma_order(atoms.pos@[i][d], domain.boundaries_low[d]);
            lemma_order(atoms.pos@[i][d], domain.boundaries_high[d]);
        }
    }
}

proof fn atoms_stay_at(domain: Domain, pos: Vec3)
    requires
        stays(domain, pos),
    ensures
        forall|d: int|
            0 <= d < 3 && domain.boundary_type[d] != BoundaryType::Periodic ==> !(
            #[trigger] pos[d]).below(domain.boundaries_low[d]) && !pos[d].at_least(
                domain.boundaries_high[d],
            ),
{
}

/// The least coordinate is no greater than that of any atom, and it is one of them.
pub proof fn lowest_is_the_least(positions: Seq<Vec3>, d: int, n: int)
    requires
        0 <= n <= positions.len(),
        0 <= d < 3,
        forall|k: int| 0 <= k < n ==> !(#[trigger] positions[k])[d].nan(),
    ensures
        !lowest(positions, d, n).nan(),
        forall|k: int| 0 <= k < n ==> num(lowest(positions, d, n)) <= num((#[trigger] positions[k])[d]),
        lowest(positions, d, n) == Scalar::greatest() || exists|k: int|
            0 <= k < n && lowest(positions, d, n) == (#[trigger] positions[k])[d],
    decreases n,
{
    lemma_limits();
    if n > 0 {
        lowest_is_the_least(positions, d, n - 1);
        let rest: Scalar = lowest(positions, d, n - 1);
        assert(!positions[n - 1][d].nan());
        lemma_order(positions[n - 1][d], rest);
        let now: Scalar = lowest(positions, d, n);
        if now == rest && now != Scalar::greatest() {
            let k: int = choose|k: int| 0 <= k < n - 1 && rest == (#[trigger] positions[k])[d];
            assert(now == positions[k][d]);
        } else if now != rest {
            assert(now == positions[n - 1][d]);
        }
    }
}

/// The greatest coordinate is no less than that of any atom, and it is one of them.
pub proof fn highest_is_the_greatest(positions: Seq<Vec3>, d: int, n: int)
    requires
        0 <= n <= positions.len(),
        0 <= d < 3,
        forall|k: int| 0 <= k < n ==> !(#[trigger] positions[k])[d].nan(),
    ensures
        !highest(positions, d, n).nan(),
        forall|k: int|
            0 <= k < n ==> num(highest(positions, d, n)) >= num((#[trigger] positions[k])[d]),
        highest(positions, d, n) == Scalar::least() || exists|k: int|
            0 <= k < n && highest(positions, d, n) == (#[trigger] positions[k])[d],
    decreases n,
{
    lemma_limits();
    if n > 0 {
        highest_is_the_greatest(positions, d, n - 1);
        let rest: Scalar = highest(positions, d, n - 1);
        assert(!positions[n - 1][d].nan());
        lemma_order(rest, positions[n - 1][d]);
        let now: Scalar = highest(positions, d, n);
        if now == rest && now != Scalar::least() {
            let k: int = choose|k: int| 0 <= k < n - 1 && rest == (#[trigger] positions[k])[d];
            assert(now == positions[k][d]);
        } else if now != rest {
            assert(now == positions[n - 1][d]);
        }
    }
}

/// The padding is the one that was asked for, else the ghost cutoff, else a hundredth of
/// the longest side; it is never zero.
pub proof fn padding_is_positive<F: Fn(Op, Scalar, Scalar, Scalar) -> Scalar>(
    ar: F,
    domain: Domain,
)
    requires
        !domain.shrink_wrap_padding.nan() && !domain.ghost_cutoff.nan(),
        forall|d: int| 0 <= d < 3 ==> !(#[trigger] domain.size[d]).nan(),
        forall|d: int|
            0 <= d < 3 ==> exact_product(ar, #[trigger] domain.size[d], crate::domain::hundredth()),
    ensures
        ({
            let padding = padding_of(ar, domain);
            let (a, b, c) = (num(domain.size[0]), num(domain.size[1]), num(domain.size[2]));
            &&& !padding.nan()
            &&& num(padding) > 0real
            &&& num(domain.shrink_wrap_padding) > 0real ==> num(padding) == num(
                domain.shrink_wrap_padding,
            )
            &&& num(domain.shrink_wrap_padding) <= 0real && num(domain.ghost_cutoff) > 0real ==> num(
                padding,
            ) == num(domain.ghost_cutoff)
            &&& num(domain.shrink_wrap_padding) <= 0real && num(domain.ghost_cutoff) <= 0real && (a
                > 0real || b > 0real || c > 0real) ==> {
                let h = num(crate::domain::hundredth());
                &&& num(padding) >= a * h && num(padding) >= b * h && num(padding) >= c * h
                &&& num(padding) == a * h || num(padding) == b * h || num(padding) == c * h
            }
        }),
{
    lemma_constants();
    hundredth_is_what_it_says();
    let (x, y, z): (Scalar, Scalar, Scalar) = (domain.size[0], domain.size[1], domain.size[2]);
    lemma_order(Scalar::zero(), domain.shrink_wrap_padding);
    lemma_order(Scalar::zero(), domain.ghost_cutoff);
    lemma_order(x, y);
    lemma_order(x.greater(y), z);
    let longest: Scalar = x.greater(y).greater(z);
    lemma_order(Scalar::zero(), longest);
    let h: real = num(crate::domain::hundredth());
    assert(h > 0real);
    assert(num(longest) >= num(x) && num(longest) >= num(y) && num(longest) >= num(z));
    crate::geometry::lemma_grow_factor(h, num(x), num(longest));
    crate::geometry::lemma_grow_factor(h, num(y), num(longest));
    crate::geometry::lemma_grow_factor(h, num(z), num(longest));
    crate::exact::lemma_mul_order(h, num(x), 1real);
    crate::exact::lemma_mul_order(h, num(y), 1real);
    crate::exact::lemma_mul_order(h, num(z), 1real);
    crate::exact::lemma_mul_order(h, num(longest), 1real);
    if num(longest) > 0real {
        lemma_both_positive(num(longest), h);
    }
}

proof fn lemma_both_positive(a: real, b: real)
    requires
        a > 0real,
        b > 0real,
    ensures
        a * b > 0real,
{
    assert(a * b > 0real) by (nonlinear_arith)
        requires
            a > 0real,
            b > 0real,
    ;
}

/// After a refit the outermost atoms along a shrink-wrapped axis are the padding away
/// from its faces, and no atom is nearer; where nothing was refitted, the faces are
/// already there up to the tolerance. Other axes are left alone.
pub proof fn shrink_wrapped_faces_fit_the_atoms<F: Fn(Op, Scalar, Scalar, Scalar) -> Scalar>(
    ar: F,
    domain: Domain,
    new: Domain,
    positions: Seq<Vec3>,
    n: int,
    d: int,
    i: int,
)
    requires
        0 <= i < n <= positions.len(),
        0 <= d < 3,
        forall|k: int|
            0 <= k < n ==> !(#[trigger] positions[k])[d].nan() && num(Scalar::least()) <= num(
                positions[k][d],
            ) <= num(Scalar::greatest()),
        ({
            let padding = padding_of(ar, domain);
            let (low, high) = (lowest(positions, d, n), highest(positions, d, n));
            &&& exact_difference(ar, low, padding)
            &&& exact_sum(ar, high, padding)
            &&& exact_difference(ar, difference(ar, low, padding), domain.boundaries_low[d])
            &&& exact_difference(ar, sum(ar, high, padding), domain.boundaries_high[d])
        }),
        refitted(ar, domain, new, positions, n, d),
    ensures
        ({
            let (low, high) = (num(new.boundaries_low[d]), num(new.boundaries_high[d]));
            let p = num(padding_of(ar, domain));
            let x = num(positions[i][d]);
            let slack = num(tolerance());
            &&& refits(ar, domain, positions, n, d) ==> {
                &&& low + p <= x <= high - p
                &&& exists|k: int| 0 <= k < n && num((#[trigger] positions[k])[d]) == low + p
                &&& exists|k: int| 0 <= k < n && num((#[trigger] positions[k])[d]) == high - p
                &&& num(new.sub_domain_low[d]) == low && num(new.sub_domain_high[d]) == high
            }
            &&& domain.boundary_type[d] == BoundaryType::ShrinkWrap ==> low + p <= x + slack && x
                - slack <= high - p
            &&& domain.boundary_type[d] != BoundaryType::ShrinkWrap ==> new.boundaries_low[d]
                == domain.boundaries_low[d] && new.boundaries_high[d] == domain.boundaries_high[d]
        }),
{
    lemma_limits();
    tolerance_is_what_it_says();
    lowest_is_the_least(positions, d, n);
    highest_is_the_greatest(positions, d, n);
    let (low, high): (Scalar, Scalar) = (lowest(positions, d, n), highest(positions, d, n));
    assert(num(low) <= num(positions[i][d]) && num(positions[i][d]) <= num(high));
    let (a, b): (Scalar, Scalar) = fitted(ar, domain, positions, n, d);
    let (u, v): (Scalar, Scalar) = (
        difference(ar, a, domain.boundaries_low[d]),
        difference(ar, b, domain.boundaries_high[d]),
    );
    lemma_absolute(u);
    lemma_absolute(v);
    lemma_order(tolerance(), u.absolute());
    lemma_order(tolerance(), v.absolute());
    assert(num(tolerance()) > 0real);
    if low == Scalar::greatest() {
        assert(num(positions[i][d]) == num(low));
    } else {
        let k: int = choose|k: int| 0 <= k < n && low == (#[trigger] positions[k])[d];
        assert(num(positions[k][d]) == num(low));
    }
    if high == Scalar::least() {
        assert(num(positions[i][d]) == num(high));
    } else {
        let k: int = choose|k: int| 0 <= k < n && high == (#[trigger] positions[k])[d];
        assert(num(positions[k][d]) == num(high));
    }
}

/// The part of a process has the bounds and the kinds of faces that the configuration
/// gives each axis.
pub proof fn parts_follow_the_configuration<F: Fn(Op, Scalar, Scalar, Scalar) -> Scalar>(
    ar: F,
    config: DomainConfig,
    decomp: [i32; 3],
    at: [i32; 3],
    r: Domain,
)
    requires
        is_part(ar, config, decomp, at, r),
    ensures
        r.boundaries_low[0] == config.x_low && r.boundaries_high[0] == config.x_high,
        r.boundaries_low[1] == config.y_low && r.boundaries_high[1] == config.y_high,
        r.boundaries_low[2] == config.z_low && r.boundaries_high[2] == config.z_high,
        r.boundary_type[0] == config.boundary_x,
        r.boundary_type[1] == config.boundary_y,
        r.boundary_type[2] == config.boundary_z,
        exact_difference(ar, config.x_high, config.x_low) ==> num(r.size[0]) == num(config.x_high)
            - num(config.x_low),
        exact_difference(ar, config.y_high, config.y_low) ==> num(r.size[1]) == num(config.y_high)
            - num(config.y_low),
        exact_difference(ar, config.z_high, config.z_low) ==> num(r.size[2]) == num(config.z_high)
            - num(config.z_low),
{
}

} // verus!
