//! What the neighbour list is for, where no operation rounds: which atoms are close,
//! and how far they may move before the list is built anew.

use crate::atom::Atom;
use crate::exact::{
    exact_difference, exact_product, exact_sum, is_num, lemma_constants, lemma_mul_add,
    lemma_mul_order, lemma_negated, lemma_order, lemma_scaled_number, lemma_small_numbers, num,
};
use crate::geometry::{
    apart, dot, lemma_apart_along, lemma_drop_factor, lemma_grow_factor, lemma_square_order,
    length_squared, point_of, Point,
};
use crate::neighbor::{
    any_moved, displacement, greatest_radius, least_radius, moved_too_far, radius_spread, stale,
    threshold_squared, uniform_cutoff, Neighbor,
};
use crate::neighbor_list::{distance_squared, within_reach};
use crate::parts::near_image;
use crate::scalar::{
    difference, fused, lemma_pow2_fraction, product, sum, Op, Scalar, Vec3, FRACTION,
};
use crate::CommState;
use vstd::arithmetic::power2::*;
use vstd::prelude::*;

verus! {

/// The fused operation gives `a * b + c`, without rounding.
pub open spec fn exact_fused<F: Fn(Op, Scalar, Scalar, Scalar) -> Scalar>(
    ar: F,
    a: Scalar,
    b: Scalar,
    c: Scalar,
) -> bool {
    is_num(fused(ar, a, b, c), num(a) * num(b) + num(c))
}

/// The distance of two positions is computed without rounding.
pub open spec fn exact_apart<F: Fn(Op, Scalar, Scalar, Scalar) -> Scalar>(
    ar: F,
    a: Vec3,
    b: Vec3,
) -> bool {
    let (x, y, z) = (
        difference(ar, b[0], a[0]),
        difference(ar, b[1], a[1]),
        difference(ar, b[2], a[2]),
    );
    let zz = product(ar, z, z);
    &&& exact_difference(ar, b[0], a[0])
    &&& exact_difference(ar, b[1], a[1])
    &&& exact_difference(ar, b[2], a[2])
    &&& exact_product(ar, z, z)
    &&& exact_fused(ar, y, y, zz)
    &&& exact_fused(ar, x, x, fused(ar, y, y, zz))
}

/// The computed squared distance is the squared distance.
pub proof fn computed_distance_is_the_distance<F: Fn(Op, Scalar, Scalar, Scalar) -> Scalar>(
    ar: F,
    a: Vec3,
    b: Vec3,
)
    requires
        exact_apart(ar, a, b),
    ensures
        is_num(distance_squared(ar, a, b), apart(point_of(a), point_of(b))),
{
    lemma_flip(num(a[0]), num(b[0]));
    lemma_flip(num(a[1]), num(b[1]));
    lemma_flip(num(a[2]), num(b[2]));
}

proof fn lemma_flip(a: real, b: real)
    ensures
        (a - b) * (a - b) == (b - a) * (b - a),
{
    assert((a - b) * (a - b) == (b - a) * (b - a)) by (nonlinear_arith);
}

proof fn lemma_smaller_square(a: real, b: real)
    requires
        a >= 0real,
        b >= 0real,
    ensures
        a * a < b * b <==> a < b,
{
    assert(a * a < b * b <==> a < b) by (nonlinear_arith)
        requires
            a >= 0real,
            b >= 0real,
    ;
}

/// The reach of two radii is computed without rounding.
pub open spec fn exact_reach<F: Fn(Op, Scalar, Scalar, Scalar) -> Scalar>(
    ar: F,
    a: Scalar,
    b: Scalar,
    skin: Scalar,
) -> bool {
    let s = sum(ar, a, b);
    &&& exact_sum(ar, a, b)
    &&& exact_product(ar, s, s)
    &&& exact_product(ar, skin, skin)
    &&& exact_product(ar, product(ar, s, s), product(ar, skin, skin))
}

/// Where radii differ, two atoms count as close exactly if their distance is below the
/// sum of their radii times the skin fraction.
pub proof fn close_atoms_are_within_their_reach<F: Fn(Op, Scalar, Scalar, Scalar) -> Scalar>(
    ar: F,
    pos: Seq<Vec3>,
    radius: Seq<Scalar>,
    skin: Scalar,
    i: int,
    j: int,
    t: real,
)
    requires
        exact_apart(ar, pos[i], pos[j]),
        exact_reach(ar, radius[i], radius[j], skin),
        (num(radius[i]) + num(radius[j])) * num(skin) >= 0real,
        t >= 0real,
        t * t == apart(point_of(pos[i]), point_of(pos[j])),
    ensures
        within_reach(ar, pos, radius, None, product(ar, skin, skin))(i, j) <==> t < (num(radius[i])
            + num(radius[j])) * num(skin),
{
    close_pairs_are_within_their_reach(ar, pos, radius, skin, i, j);
    lemma_smaller_square(t, (num(radius[i]) + num(radius[j])) * num(skin));
}

/// The same in squares, which every pair of positions has.
pub proof fn close_pairs_are_within_their_reach<F: Fn(Op, Scalar, Scalar, Scalar) -> Scalar>(
    ar: F,
    pos: Seq<Vec3>,
    radius: Seq<Scalar>,
    skin: Scalar,
    i: int,
    j: int,
)
    requires
        exact_apart(ar, pos[i], pos[j]),
        exact_reach(ar, radius[i], radius[j], skin),
    ensures
        ({
            let reach = (num(radius[i]) + num(radius[j])) * num(skin);
            within_reach(ar, pos, radius, None, product(ar, skin, skin))(i, j) <==> apart(
                point_of(pos[i]),
                point_of(pos[j]),
            ) < reach * reach
        }),
{
    computed_distance_is_the_distance(ar, pos[i], pos[j]);
    let s: Scalar = sum(ar, radius[i], radius[j]);
    let reach: Scalar = product(ar, product(ar, s, s), product(ar, skin, skin));
    lemma_order(distance_squared(ar, pos[i], pos[j]), reach);
    let (a, b): (real, real) = (num(radius[i]) + num(radius[j]), num(skin));
    assert((a * a) * (b * b) == (a * b) * (a * b)) by (nonlinear_arith);
}

/// Closeness does not depend on which of the two atoms is named first.
pub proof fn closeness_is_mutual<F: Fn(Op, Scalar, Scalar, Scalar) -> Scalar>(
    ar: F,
    pos: Seq<Vec3>,
    radius: Seq<Scalar>,
    skin: Scalar,
    i: int,
    j: int,
)
    requires
        exact_apart(ar, pos[i], pos[j]) && exact_apart(ar, pos[j], pos[i]),
        exact_reach(ar, radius[i], radius[j], skin),
        exact_reach(ar, radius[j], radius[i], skin),
    ensures
        ({
            let near = within_reach(ar, pos, radius, None, product(ar, skin, skin));
            near(i, j) == near(j, i)
        }),
{
    close_pairs_are_within_their_reach(ar, pos, radius, skin, i, j);
    close_pairs_are_within_their_reach(ar, pos, radius, skin, j, i);
    lemma_flip(num(pos[i][0]), num(pos[j][0]));
    lemma_flip(num(pos[i][1]), num(pos[j][1]));
    lemma_flip(num(pos[i][2]), num(pos[j][2]));
}

/// Atoms that are close stay so where either radius grows.
pub proof fn closeness_grows_with_the_radii<F: Fn(Op, Scalar, Scalar, Scalar) -> Scalar>(
    ar: F,
    pos: Seq<Vec3>,
    radius: Seq<Scalar>,
    greater: Seq<Scalar>,
    skin: Scalar,
    i: int,
    j: int,
)
    requires
        exact_apart(ar, pos[i], pos[j]),
        exact_reach(ar, radius[i], radius[j], skin),
        exact_reach(ar, greater[i], greater[j], skin),
        num(skin) >= 0real,
        0real <= num(radius[i]) <= num(greater[i]),
        0real <= num(radius[j]) <= num(greater[j]),
        within_reach(ar, pos, radius, None, product(ar, skin, skin))(i, j),
    ensures
        within_reach(ar, pos, greater, None, product(ar, skin, skin))(i, j),
{
    close_pairs_are_within_their_reach(ar, pos, radius, skin, i, j);
    close_pairs_are_within_their_reach(ar, pos, greater, skin, i, j);
    let (a, b, s): (real, real, real) = (
        num(radius[i]) + num(radius[j]),
        num(greater[i]) + num(greater[j]),
        num(skin),
    );
    assert(0real <= a * s <= b * s) by (nonlinear_arith)
        requires
            0real <= a <= b,
            s >= 0real,
    ;
    let (x, y): (real, real) = (a * s, b * s);
    assert(x * x <= y * y) by (nonlinear_arith)
        requires
            0real <= x <= y,
    ;
}

/// The least radius is no greater than any, and it is one of them, where they are
/// finite numbers.
pub proof fn least_radius_is_the_least(radius: Seq<Scalar>, n: int)
    requires
        0 <= n <= radius.len(),
        forall|k: int| 0 <= k < n ==> !(#[trigger] radius[k]).nan(),
    ensures
        !least_radius(radius, n).nan(),
        forall|k: int| 0 <= k < n ==> num(least_radius(radius, n)) <= num(#[trigger] radius[k]),
        least_radius(radius, n) == Scalar::greatest() || exists|k: int|
            0 <= k < n && least_radius(radius, n) == #[trigger] radius[k],
    decreases n,
{
    if n > 0 {
        least_radius_is_the_least(radius, n - 1);
        let before: Scalar = least_radius(radius, n - 1);
        lemma_order(before, radius[n - 1]);
        lemma_order(radius[n - 1], before);
        let now: Scalar = least_radius(radius, n);
        if now == before && now != Scalar::greatest() {
            let k: int = choose|k: int| 0 <= k < n - 1 && before == #[trigger] radius[k];
            assert(now == radius[k]);
        } else if now != before {
            assert(now == radius[n - 1]);
        }
    }
}

/// The greatest radius is no less than any and no less than the number started from,
/// and it is one of them.
pub proof fn greatest_radius_is_the_greatest(radius: Seq<Scalar>, from: Scalar, n: int)
    requires
        0 <= n <= radius.len(),
        !from.nan(),
        forall|k: int| 0 <= k < n ==> !(#[trigger] radius[k]).nan(),
    ensures
        !greatest_radius(radius, from, n).nan(),
        num(greatest_radius(radius, from, n)) >= num(from),
        forall|k: int|
            0 <= k < n ==> num(greatest_radius(radius, from, n)) >= num(#[trigger] radius[k]),
        greatest_radius(radius, from, n) == from || exists|k: int|
            0 <= k < n && greatest_radius(radius, from, n) == #[trigger] radius[k],
    decreases n,
{
    if n > 0 {
        greatest_radius_is_the_greatest(radius, from, n - 1);
        let before: Scalar = greatest_radius(radius, from, n - 1);
        lemma_order(before, radius[n - 1]);
        lemma_order(radius[n - 1], before);
        let now: Scalar = greatest_radius(radius, from, n);
        if now == before && now != from {
            let k: int = choose|k: int| 0 <= k < n - 1 && before == #[trigger] radius[k];
            assert(now == radius[k]);
        } else if now != before {
            assert(now == radius[n - 1]);
        }
    }
}

/// Radii that count as equal differ by less than two parts in 10^15.
pub proof fn radius_spread_is_small()
    ensures
        !radius_spread().nan(),
        0real < num(radius_spread()),
        num(radius_spread()) * 1000000000000000real < 2real,
        num(radius_spread()) * 2000000000000000real > 1real,
{
    let x: Scalar = radius_spread();
    let m: int = 0x12_03af_9ee7_5616;
    lemma_pow2_fraction();
    assert(x.exponent() == 973 && x.fraction() == 0x2_03af_9ee7_5616);
    assert(x.units() == m * pow2(972));
    lemma_pow2_adds(972, 102);
    assert((m * pow2(972)) * pow2(102) == m * (pow2(972) * pow2(102))) by (nonlinear_arith);
    lemma_scaled_number(x, m, 102);
    vstd::arithmetic::power2::lemma2_to64();
    vstd::arithmetic::power2::lemma2_to64_rest();
    lemma_pow2_adds(51, 51);
    assert(pow2(51) == 0x8_0000_0000_0000);
    assert(pow2(102) == 0x8_0000_0000_0000 * 0x8_0000_0000_0000);
    let (s, p): (real, real) = (num(x), pow2(102) as int as real);
    assert(s * p == m as real);
    assert(s * 1000000000000000real < 2real) by (nonlinear_arith)
        requires
            s * p == 5070602400912918real,
            p == 5070602400912917605986812821504real,
    ;
    assert(s * 2000000000000000real > 1real) by (nonlinear_arith)
        requires
            s * p == 5070602400912918real,
            p == 5070602400912917605986812821504real,
    ;
    assert(s > 0real) by (nonlinear_arith)
        requires
            s * p == 5070602400912918real,
            p > 0real,
    ;
}

/// The common cutoff is computed without rounding.
pub open spec fn exact_common_cutoff<F: Fn(Op, Scalar, Scalar, Scalar) -> Scalar>(
    ar: F,
    low: Scalar,
    high: Scalar,
    skin: Scalar,
) -> bool {
    let twice = product(ar, Scalar::two(), low);
    let cutoff = product(ar, twice, skin);
    &&& exact_difference(ar, high, low)
    &&& exact_product(ar, Scalar::two(), low)
    &&& exact_product(ar, twice, skin)
    &&& exact_product(ar, cutoff, cutoff)
}

/// There is a common cutoff only where all radii are within the spread of each other,
/// and always where they are equal. It is then the reach of two atoms with the least
/// radius.
pub proof fn common_cutoff_is_the_reach_of_equal_radii<
    F: Fn(Op, Scalar, Scalar, Scalar) -> Scalar,
>(ar: F, radius: Seq<Scalar>, n: int, skin: Scalar)
    requires
        0 < n <= radius.len(),
        forall|k: int|
            0 <= k < n ==> !(#[trigger] radius[k]).nan() && num(Scalar::least()) <= num(radius[k])
                <= num(Scalar::greatest()),
        exact_common_cutoff(
            ar,
            least_radius(radius, n),
            greatest_radius(radius, Scalar::least(), n),
            skin,
        ),
    ensures
        uniform_cutoff(ar, radius, n, skin) is Some ==> forall|i: int, j: int|
            0 <= i < n && 0 <= j < n ==> (num(#[trigger] radius[i]) - num(#[trigger] radius[j]))
                * 1000000000000000real < 2real,
        (forall|i: int, j: int|
            0 <= i < n && 0 <= j < n ==> num(#[trigger] radius[i]) == num(#[trigger] radius[j]))
            ==> uniform_cutoff(ar, radius, n, skin) is Some,
        uniform_cutoff(ar, radius, n, skin) matches Some(c) ==> exists|k: int|
            0 <= k < n && {
                let reach = (num(#[trigger] radius[k]) + num(radius[k])) * num(skin);
                is_num(c, reach * reach)
            },
{
    let (low, high): (Scalar, Scalar) = (
        least_radius(radius, n),
        greatest_radius(radius, Scalar::least(), n),
    );
    lemma_limits();
    least_radius_is_the_least(radius, n);
    greatest_radius_is_the_greatest(radius, Scalar::least(), n);
    radius_spread_is_small();
    lemma_small_numbers();
    let gap: Scalar = difference(ar, high, low);
    lemma_absolute(gap);
    lemma_order(gap.absolute(), radius_spread());
    // Both ends of the range are met.
    let a: int = lemma_low_is_met(radius, n);
    let b: int = lemma_high_is_met(radius, n);
    assert(num(low) == num(radius[a]));
    assert(num(high) == num(radius[b]));
    assert(num(radius[a]) >= num(low));
    let (x, s): (real, real) = (num(low), num(skin));
    assert(2real * x == x + x);
    if uniform_cutoff(ar, radius, n, skin) is Some {
        let reach: real = (num(radius[a]) + num(radius[a])) * s;
        assert(is_num(uniform_cutoff(ar, radius, n, skin)->0, reach * reach));
        assert forall|i: int, j: int| 0 <= i < n && 0 <= j < n implies (num(#[trigger] radius[i]) - num(
            #[trigger] radius[j],
        )) * 1000000000000000real < 2real by {
            let (p, q): (real, real) = (num(radius[i]) - num(radius[j]), num(radius_spread()));
            assert(p <= num(high) - num(low));
            assert(p < q);
        }
    }
    if forall|i: int, j: int|
        0 <= i < n && 0 <= j < n ==> num(#[trigger] radius[i]) == num(#[trigger] radius[j]) {
        assert(num(radius[a]) == num(radius[b]));
    }
}

/// The greatest and the least finite numbers are numbers, and opposite.
pub proof fn lemma_limits()
    ensures
        !Scalar::greatest().nan() && !Scalar::least().nan(),
        num(Scalar::least()) == -num(Scalar::greatest()),
        num(Scalar::greatest()) > 0real,
{
    let g: Scalar = Scalar::greatest();
    assert(Scalar::least() == g.negated());
    lemma_negated(g);
    lemma_pow2_fraction();
    assert(g.exponent() == 2046 && g.fraction() == FRACTION - 1);
    lemma_pow2_pos(2045);
    vstd::arithmetic::mul::lemma_mul_strictly_positive(
        FRACTION + (FRACTION - 1),
        pow2(2045) as int,
    );
    lemma_constants();
    lemma_order(Scalar::zero(), g);
}

pub proof fn lemma_absolute(x: Scalar)
    ensures
        x.absolute().nan() == x.nan(),
        num(x.absolute()) == if num(x) >= 0real {
            num(x)
        } else {
            -num(x)
        },
{
    lemma_constants();
    crate::exact::lemma_sign(x);
    lemma_negated(x);
    let y: Scalar = x.absolute();
    assert(y.magnitude() == x.magnitude());
    assert(y.units() == x.units());
    if x.negative() {
        assert(y.value() == x.negated().value());
    } else {
        assert(y.value() == x.value());
    }
    crate::exact::lemma_zero_over_unit();
}

proof fn lemma_low_is_met(radius: Seq<Scalar>, n: int) -> (k: int)
    requires
        0 < n <= radius.len(),
        forall|k: int|
            0 <= k < n ==> !(#[trigger] radius[k]).nan() && num(radius[k]) <= num(
                Scalar::greatest(),
            ),
    ensures
        0 <= k < n,
        num(radius[k]) == num(least_radius(radius, n)),
{
    least_radius_is_the_least(radius, n);
    let low: Scalar = least_radius(radius, n);
    if low == Scalar::greatest() {
        assert(num(low) <= num(radius[0]));
        0
    } else {
        choose|k: int| 0 <= k < n && low == #[trigger] radius[k]
    }
}

proof fn lemma_high_is_met(radius: Seq<Scalar>, n: int) -> (k: int)
    requires
        0 < n <= radius.len(),
        forall|k: int|
            0 <= k < n ==> !(#[trigger] radius[k]).nan() && num(radius[k]) >= num(Scalar::least()),
    ensures
        0 <= k < n,
        num(radius[k]) == num(greatest_radius(radius, Scalar::least(), n)),
{
    lemma_limits();
    greatest_radius_is_the_greatest(radius, Scalar::least(), n);
    let high: Scalar = greatest_radius(radius, Scalar::least(), n);
    if high == Scalar::least() {
        assert(num(high) >= num(radius[0]));
        0
    } else {
        choose|k: int| 0 <= k < n && high == #[trigger] radius[k]
    }
}

/// With the common cutoff two atoms count as close exactly if their distance is below
/// it.
pub proof fn close_pairs_are_within_the_common_cutoff<
    F: Fn(Op, Scalar, Scalar, Scalar) -> Scalar,
>(
    ar: F,
    pos: Seq<Vec3>,
    radius: Seq<Scalar>,
    cutoff_sq: Scalar,
    skin_sq: Scalar,
    i: int,
    j: int,
)
    requires
        exact_apart(ar, pos[i], pos[j]),
        !cutoff_sq.nan(),
    ensures
        within_reach(ar, pos, radius, Some(cutoff_sq), skin_sq)(i, j) <==> apart(
            point_of(pos[i]),
            point_of(pos[j]),
        ) < num(cutoff_sq),
{
    computed_distance_is_the_distance(ar, pos[i], pos[j]);
    lemma_order(distance_squared(ar, pos[i], pos[j]), cutoff_sq);
}

/// How far and where an atom moved from `from` to `to`: along a periodic axis to the
/// nearest image.
pub open spec fn move_of(neighbor: Neighbor, from: Vec3, to: Vec3) -> Point {
    let (a, b) = (point_of(from), point_of(to));
    let size = point_of(neighbor.pbc_box);
    Point {
        x: near_image(b.x - a.x, size.x, neighbor.pbc_flags[0]),
        y: near_image(b.y - a.y, size.y, neighbor.pbc_flags[1]),
        z: near_image(b.z - a.z, size.z, neighbor.pbc_flags[2]),
    }
}

/// The nearest image differs by whole boxes, and no other is nearer to it than half a
/// box, for displacements of at most one and a half boxes.
pub proof fn nearest_image_is_nearest(d: real, l: real, k: int)
    requires
        l > 0real,
        -3real * l <= 2real * d <= 3real * l,
    ensures
        ({
            let e = near_image(d, l, true);
            &&& e == d || e == d - l || e == d + l
            &&& -l <= e + e <= l
            &&& e * e <= (d + k as real * l) * (d + k as real * l)
        }),
        near_image(d, l, false) == d,
{
    let e: real = near_image(d, l, true);
    let f: real = d + k as real * l;
    let m: int = if e == d {
        k
    } else if e == d - l {
        k + 1
    } else {
        k - 1
    };
    lemma_mul_add(l, k as real, 1real);
    lemma_mul_add(l, k as real, -1real);
    assert((-1real) * l == -l && 1real * l == l);
    assert((k + 1) as real == k as real + 1real);
    assert((k - 1) as real == k as real + (-1real));
    assert(f == e + m as real * l);
    if m == 0 {
        assert(0real * l == 0real);
    } else if m > 0 {
        let r: real = m as real;
        lemma_grow_factor(l, 1real, r);
        lemma_mul_order(r, l, 1real);
        assert(l * 1real == l);
        lemma_no_nearer(e, f, l);
    } else {
        let r: real = m as real;
        lemma_grow_factor(l, r, -1real);
        lemma_mul_order(r, l, 1real);
        assert(l * (-1real) == -l);
        lemma_no_nearer(-e, -f, l);
        lemma_square_of_negative(e);
        lemma_square_of_negative(f);
    }
}

proof fn lemma_no_nearer(e: real, f: real, l: real)
    requires
        l > 0real,
        -l <= e + e <= l,
        f >= e + l,
    ensures
        e * e <= f * f,
{
    // f is at least half a box, and e at most that.
    let h: real = f + f;
    assert(h >= l);
    let g: real = e + e;
    lemma_square_of_sum(e, e);
    lemma_square_of_sum(f, f);
    if g >= 0real {
        lemma_square_order(g, h);
    } else {
        lemma_square_order(-g, h);
        lemma_square_of_negative(g);
    }
}

/// The way of an atom along axis `d` is computed without rounding.
pub open spec fn exact_way<F: Fn(Op, Scalar, Scalar, Scalar) -> Scalar>(
    ar: F,
    neighbor: Neighbor,
    from: Vec3,
    to: Vec3,
    d: int,
) -> bool {
    let (size, delta) = (neighbor.pbc_box[d], difference(ar, to[d], from[d]));
    &&& exact_difference(ar, to[d], from[d])
    &&& neighbor.pbc_flags[d] ==> exact_product(ar, size, Scalar::half()) && exact_difference(
        ar,
        delta,
        size,
    ) && exact_sum(ar, delta, size)
}

/// Three numbers are squared and added without rounding.
pub open spec fn exact_length<F: Fn(Op, Scalar, Scalar, Scalar) -> Scalar>(
    ar: F,
    x: Scalar,
    y: Scalar,
    z: Scalar,
) -> bool {
    let (xx, yy, zz) = (product(ar, x, x), product(ar, y, y), product(ar, z, z));
    &&& exact_product(ar, x, x) && exact_product(ar, y, y) && exact_product(ar, z, z)
    &&& exact_sum(ar, xx, yy)
    &&& exact_sum(ar, sum(ar, xx, yy), zz)
}

/// How far an atom moved is computed without rounding.
pub open spec fn exact_move<F: Fn(Op, Scalar, Scalar, Scalar) -> Scalar>(
    ar: F,
    neighbor: Neighbor,
    from: Vec3,
    to: Vec3,
) -> bool {
    &&& exact_way(ar, neighbor, from, to, 0)
    &&& exact_way(ar, neighbor, from, to, 1)
    &&& exact_way(ar, neighbor, from, to, 2)
    &&& exact_length(
        ar,
        displacement(ar, neighbor, from, to, 0),
        displacement(ar, neighbor, from, to, 1),
        displacement(ar, neighbor, from, to, 2),
    )
}

/// How far an atom may move is computed without rounding.
pub open spec fn exact_allowance<F: Fn(Op, Scalar, Scalar, Scalar) -> Scalar>(
    ar: F,
    neighbor: Neighbor,
) -> bool {
    let more = difference(ar, neighbor.skin_fraction, Scalar::one());
    let skin = product(ar, more, neighbor.cached_min_skin);
    &&& exact_difference(ar, neighbor.skin_fraction, Scalar::one())
    &&& exact_product(ar, more, neighbor.cached_min_skin)
    &&& exact_product(ar, skin, skin)
}

/// How far an atom may move before the list is built anew: the part of the least
/// radius by which the skin fraction exceeds one.
pub open spec fn allowance(neighbor: Neighbor) -> real {
    (num(neighbor.skin_fraction) - 1real) * num(neighbor.cached_min_skin)
}

proof fn lemma_way<F: Fn(Op, Scalar, Scalar, Scalar) -> Scalar>(
    ar: F,
    neighbor: Neighbor,
    from: Vec3,
    to: Vec3,
    d: int,
)
    requires
        0 <= d < 3,
        exact_way(ar, neighbor, from, to, d),
    ensures
        is_num(
            displacement(ar, neighbor, from, to, d),
            near_image(
                num(to[d]) - num(from[d]),
                num(neighbor.pbc_box[d]),
                neighbor.pbc_flags[d],
            ),
        ),
{
    lemma_constants();
    let size: Scalar = neighbor.pbc_box[d];
    let half: Scalar = product(ar, size, Scalar::half());
    let delta: Scalar = difference(ar, to[d], from[d]);
    let (h, l): (real, real) = (num(Scalar::half()), num(size));
    lemma_mul_add(l, h, h);
    lemma_mul_order(l, h, 1real);
    assert(l * 1real == l && 1real * l == l);
    lemma_negated(half);
    lemma_order(half, delta);
    lemma_order(delta, half.negated());
}

proof fn lemma_moved<F: Fn(Op, Scalar, Scalar, Scalar) -> Scalar>(
    ar: F,
    neighbor: Neighbor,
    pos: Seq<Vec3>,
    i: int,
)
    requires
        exact_allowance(ar, neighbor),
        exact_move(ar, neighbor, neighbor.last_build_pos@[i], pos[i]),
    ensures
        moved_too_far(ar, neighbor, pos, i) <==> length_squared(
            move_of(neighbor, neighbor.last_build_pos@[i], pos[i]),
        ) > allowance(neighbor) * allowance(neighbor),
{
    lemma_constants();
    let from: Vec3 = neighbor.last_build_pos@[i];
    lemma_way(ar, neighbor, from, pos[i], 0);
    lemma_way(ar, neighbor, from, pos[i], 1);
    lemma_way(ar, neighbor, from, pos[i], 2);
    let x: Scalar = displacement(ar, neighbor, from, pos[i], 0);
    let y: Scalar = displacement(ar, neighbor, from, pos[i], 1);
    let z: Scalar = displacement(ar, neighbor, from, pos[i], 2);
    lemma_order(
        threshold_squared(ar, neighbor),
        sum(ar, sum(ar, product(ar, x, x), product(ar, y, y)), product(ar, z, z)),
    );
}

/// A new list is asked for on account of motion exactly if some atom is farther from
/// where it was at the last build than the allowance.
pub proof fn motion_asks_for_a_rebuild<F: Fn(Op, Scalar, Scalar, Scalar) -> Scalar>(
    ar: F,
    neighbor: Neighbor,
    pos: Seq<Vec3>,
)
    requires
        exact_allowance(ar, neighbor),
        forall|i: int|
            0 <= i < neighbor.last_build_pos@.len() ==> exact_move(
                ar,
                neighbor,
                #[trigger] neighbor.last_build_pos@[i],
                pos[i],
            ),
    ensures
        any_moved(ar, neighbor, pos) <==> exists|i: int|
            0 <= i < neighbor.last_build_pos@.len() && length_squared(
                move_of(neighbor, #[trigger] neighbor.last_build_pos@[i], pos[i]),
            ) > allowance(neighbor) * allowance(neighbor),
{
    if any_moved(ar, neighbor, pos) {
        let i: int = choose|i: int|
            0 <= i < neighbor.last_build_pos@.len() && #[trigger] moved_too_far(
                ar,
                neighbor,
                pos,
                i,
            );
        assert(exact_move(ar, neighbor, neighbor.last_build_pos@[i], pos[i]));
        lemma_moved(ar, neighbor, pos, i);
    }
    if exists|i: int|
        0 <= i < neighbor.last_build_pos@.len() && length_squared(
            move_of(neighbor, #[trigger] neighbor.last_build_pos@[i], pos[i]),
        ) > allowance(neighbor) * allowance(neighbor) {
        let i: int = choose|i: int|
            0 <= i < neighbor.last_build_pos@.len() && length_squared(
                move_of(neighbor, #[trigger] neighbor.last_build_pos@[i], pos[i]),
            ) > allowance(neighbor) * allowance(neighbor);
        lemma_moved(ar, neighbor, pos, i);
        assert(moved_too_far(ar, neighbor, pos, i));
    }
}

/// A point that moved along.
pub open spec fn shifted(a: Point, by: Point) -> Point {
    Point { x: a.x + by.x, y: a.y + by.y, z: a.z + by.z }
}

/// The scalar product is at most the product of the lengths.
proof fn lemma_dot_bound(a: Point, b: Point, p: real, q: real)
    requires
        p >= 0real,
        q >= 0real,
        length_squared(a) <= p * p,
        length_squared(b) <= q * q,
    ensures
        dot(a, b) <= p * q,
{
    if p == 0real {
        lemma_no_length(a);
        assert(0real * b.x == 0real && 0real * b.y == 0real && 0real * b.z == 0real);
        assert(0real * q == 0real);
    } else if q == 0real {
        lemma_no_length(b);
        assert(a.x * 0real == 0real && a.y * 0real == 0real && a.z * 0real == 0real);
        assert(p * 0real == 0real);
    } else {
        let c: Point = Point { x: p * b.x, y: p * b.y, z: p * b.z };
        let (d, e): (real, real) = (dot(a, b), p * q);
        lemma_apart_along(q, a, c);
        lemma_scaled_coordinate(p, a.x, b.x);
        lemma_scaled_coordinate(p, a.y, b.y);
        lemma_scaled_coordinate(p, a.z, b.z);
        lemma_three(p, a.x * b.x, a.y * b.y, a.z * b.z);
        lemma_three(p * p, b.x * b.x, b.y * b.y, b.z * b.z);
        assert(dot(a, c) == p * d);
        assert(length_squared(c) == (p * p) * length_squared(b));
        let far: Point = Point { x: q * a.x, y: q * a.y, z: q * a.z };
        lemma_natural(far.x - c.x);
        lemma_natural(far.y - c.y);
        lemma_natural(far.z - c.z);
        assert(apart(far, c) >= 0real);
        lemma_natural(p);
        lemma_natural(q);
        lemma_grow_factor(q * q, length_squared(a), p * p);
        lemma_grow_factor(p * p, length_squared(b), q * q);
        lemma_mul_order(q, p, d);
        lemma_mul_order(p, q, d);
        assert(q * (p * d) == e * d);
        lemma_squares_multiply(p, q);
        // 2 e d <= 2 e e.
        assert(e * d <= e * e);
        lemma_positive_product(p, q);
        lemma_drop_factor(e, d, e);
    }
}

/// A vector without length is zero.
proof fn lemma_no_length(a: Point)
    requires
        length_squared(a) <= 0real * 0real,
    ensures
        a.x == 0real && a.y == 0real && a.z == 0real,
{
    lemma_natural(a.x);
    lemma_natural(a.y);
    lemma_natural(a.z);
    lemma_no_square(a.x);
    lemma_no_square(a.y);
    lemma_no_square(a.z);
}

proof fn lemma_no_square(a: real)
    requires
        a * a <= 0real,
    ensures
        a == 0real,
{
    assert(a == 0real) by (nonlinear_arith)
        requires
            a * a <= 0real,
    ;
}

proof fn lemma_positive_product(a: real, b: real)
    requires
        a > 0real,
        b > 0real,
    ensures
        a * b > 0real,
{
    assert(a * b > 0real) by (nonlinear_arith)
        requires
            a > 0real,
            b > 0real,
    ;
}

proof fn lemma_squares_multiply(a: real, b: real)
    ensures
        (a * a) * (b * b) == (a * b) * (a * b),
        (b * b) * (a * a) == (a * b) * (a * b),
{
    assert((a * a) * (b * b) == (a * b) * (a * b)) by (nonlinear_arith);
    assert((b * b) * (a * a) == (a * b) * (a * b)) by (nonlinear_arith);
}

proof fn lemma_scaled_coordinate(p: real, a: real, b: real)
    ensures
        a * (p * b) == p * (a * b),
        (p * b) * (p * b) == (p * p) * (b * b),
{
    lemma_squares_multiply(p, b);
    assert(a * (p * b) == p * (a * b)) by (nonlinear_arith);
}

proof fn lemma_three(p: real, a: real, b: real, c: real)
    ensures
        p * (a + b + c) == p * a + p * b + p * c,
{
    lemma_mul_add(p, a + b, c);
    lemma_mul_add(p, a, b);
}

proof fn lemma_natural(a: real)
    ensures
        a * a >= 0real,
{
    assert(a * a >= 0real) by (nonlinear_arith);
}

/// A sum of two ways, the first shorter than `p` and the second no longer than `q`, is
/// shorter than both together.
proof fn lemma_shorter(a: Point, b: Point, p: real, q: real)
    requires
        p >= 0real,
        q >= 0real,
        length_squared(a) < p * p,
        length_squared(b) <= q * q,
    ensures
        length_squared(shifted(a, b)) < (p + q) * (p + q),
{
    lemma_dot_bound(a, b, p, q);
    lemma_square_of_sum(a.x, b.x);
    lemma_square_of_sum(a.y, b.y);
    lemma_square_of_sum(a.z, b.z);
    lemma_square_of_sum(p, q);
}

proof fn lemma_square_of_sum(a: real, b: real)
    ensures
        (a + b) * (a + b) == a * a + 2real * (a * b) + b * b,
{
    assert((a + b) * (a + b) == a * a + 2real * (a * b) + b * b) by (nonlinear_arith);
}

/// As long as no new list is asked for, two atoms that were not within each other's
/// reach at the build are still farther apart than the sum of their radii. The atoms,
/// or images of them, stood at `a` and `b` when the list was built.
pub proof fn unlisted_atoms_do_not_touch<F: Fn(Op, Scalar, Scalar, Scalar) -> Scalar>(
    ar: F,
    neighbor: Neighbor,
    pos: Seq<Vec3>,
    i: int,
    j: int,
    a: Point,
    b: Point,
    radius_i: real,
    radius_j: real,
)
    requires
        exact_allowance(ar, neighbor),
        0 <= i < neighbor.last_build_pos@.len(),
        0 <= j < neighbor.last_build_pos@.len(),
        exact_move(ar, neighbor, neighbor.last_build_pos@[i], pos[i]),
        exact_move(ar, neighbor, neighbor.last_build_pos@[j], pos[j]),
        num(neighbor.skin_fraction) >= 1real,
        0real <= num(neighbor.cached_min_skin) <= radius_i,
        num(neighbor.cached_min_skin) <= radius_j,
        !any_moved(ar, neighbor, pos),
        ({
            let reach = (radius_i + radius_j) * num(neighbor.skin_fraction);
            apart(a, b) >= reach * reach
        }),
    ensures
        apart(
            shifted(a, move_of(neighbor, neighbor.last_build_pos@[i], pos[i])),
            shifted(b, move_of(neighbor, neighbor.last_build_pos@[j], pos[j])),
        ) >= (radius_i + radius_j) * (radius_i + radius_j),
{
    lemma_moved(ar, neighbor, pos, i);
    lemma_moved(ar, neighbor, pos, j);
    assert(!moved_too_far(ar, neighbor, pos, i));
    assert(!moved_too_far(ar, neighbor, pos, j));
    let u: Point = move_of(neighbor, neighbor.last_build_pos@[i], pos[i]);
    let v: Point = move_of(neighbor, neighbor.last_build_pos@[j], pos[j]);
    let (f, m): (real, real) = (num(neighbor.skin_fraction), num(neighbor.cached_min_skin));
    let s: real = allowance(neighbor);
    let r: real = radius_i + radius_j;
    let g: real = f - 1real;
    lemma_grow_factor(g, 0real, m);
    assert(g * 0real == 0real);
    // Both together move no farther than the skin of the two.
    lemma_grow_factor(g, m + m, r);
    lemma_mul_add(g, m, m);
    lemma_mul_add(r, f, -1real);
    lemma_mul_order(g, r, 1real);
    assert(r * (-1real) == -r);
    assert(r * (f + (-1real)) == r * f - r);
    assert(f + (-1real) == g);
    assert(s + s <= r * f - r);
    if apart(shifted(a, u), shifted(b, v)) < r * r {
        let w: Point = Point {
            x: (a.x + u.x) - (b.x + v.x),
            y: (a.y + u.y) - (b.y + v.y),
            z: (a.z + u.z) - (b.z + v.z),
        };
        let back: Point = Point { x: -u.x, y: -u.y, z: -u.z };
        lemma_square_of_negative(u.x);
        lemma_square_of_negative(u.y);
        lemma_square_of_negative(u.z);
        lemma_shorter(w, back, r, s);
        lemma_shorter(shifted(w, back), v, r + s, s);
        let whole: Point = shifted(shifted(w, back), v);
        assert(whole.x == a.x - b.x && whole.y == a.y - b.y && whole.z == a.z - b.z);
        let (p, q): (real, real) = (r + s + s, r * f);
        lemma_square_order(p, q);
    }
}

proof fn lemma_square_of_negative(a: real)
    ensures
        (-a) * (-a) == a * a,
{
    assert((-a) * (-a) == a * a) by (nonlinear_arith);
}

/// With an interval a list is never older than it: where no new list is asked for, the
/// next step makes it at most that old. Without a check of the motion nothing else
/// makes a list of the same atoms stale.
pub proof fn lists_grow_no_older_than_the_interval<F: Fn(Op, Scalar, Scalar, Scalar) -> Scalar>(
    ar: F,
    atoms: Atom,
    neighbor: Neighbor,
    comm_state: CommState,
)
    requires
        neighbor.every > 0,
    ensures
        !stale(ar, atoms, neighbor, comm_state) ==> neighbor.steps_since_build + 1 <= neighbor.every,
        !neighbor.check && comm_state == CommState::CommunicateOnly && atoms.nlocal > 0
            && neighbor.last_build_pos@.len() == atoms.nlocal && neighbor.steps_since_build + 1
            <= neighbor.every ==> !stale(ar, atoms, neighbor, comm_state),
{
}

/// A list that is not stale is a list of the present local atoms, nobody asked for
/// another, and no atom moved too far where the motion is watched: always without an
/// interval, and where a check is asked for.
pub proof fn fresh_lists_fit_the_atoms<F: Fn(Op, Scalar, Scalar, Scalar) -> Scalar>(
    ar: F,
    atoms: Atom,
    neighbor: Neighbor,
    comm_state: CommState,
)
    requires
        !stale(ar, atoms, neighbor, comm_state),
    ensures
        neighbor.last_build_pos@.len() == atoms.nlocal,
        atoms.nlocal > 0,
        comm_state != CommState::FullRebuild,
        neighbor.every == 0 || neighbor.check ==> forall|i: int|
            0 <= i < atoms.nlocal ==> !#[trigger] moved_too_far(ar, neighbor, atoms.pos@, i),
{
}

} // verus!
