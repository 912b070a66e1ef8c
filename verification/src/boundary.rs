//! Planar boundaries: particles stay on the side to which a plane's normal
//! points.

use crate::cell_grid::least_normal;
use crate::exact::{exact_difference, exact_product, exact_quotient, exact_sum, lemma_divided, num};
use crate::scalar::{
    difference, is_arithmetic, minus, over, plus, product, quotient, sum, times, Op, Scalar, Vec3,
};
use vstd::prelude::*;

verus! {

/// A plane: a point on it and its unit normal.
#[derive(Clone, Copy)]
pub struct Plane {
    pub point: Vec3,
    pub normal: Vec3,
}

/// The length by which a normal is divided: never less than the least positive
/// normal number of single precision.
pub open spec fn normal_length<F: Fn(Op, Scalar, Scalar, Scalar) -> Scalar>(ar: F, n: Vec3) -> Scalar {
    crate::vec3::norm_of(ar, n).greater(least_normal())
}

impl Plane {
    /// The plane through `point` with the direction of `normal`.
    pub fn new<F: Fn(Op, Scalar, Scalar, Scalar) -> Scalar>(point: Vec3, normal: Vec3, ar: &F) -> (r:
        Plane)
        requires
            is_arithmetic(*ar),
        ensures
            r.point == point,
            forall|d: int|
                0 <= d < 3 ==> #[trigger] r.normal[d] == quotient(
                    *ar,
                    normal[d],
                    normal_length(*ar, normal),
                ),
            forall|d: int|
                0 <= d < 3 && exact_quotient(*ar, normal[d], normal_length(*ar, normal)) ==> num(
                    #[trigger] r.normal[d],
                ) * num(normal_length(*ar, normal)) == num(normal[d]),
    {
        proof {
            assert forall|d: int|
                0 <= d < 3 && #[trigger] exact_quotient(
                    *ar,
                    normal[d],
                    normal_length(*ar, normal),
                ) implies num(quotient(*ar, normal[d], normal_length(*ar, normal))) * num(
                normal_length(*ar, normal),
            ) == num(normal[d]) by {
                lemma_divided(num(normal[d]), num(normal_length(*ar, normal)));
            }
        }
        let len: Scalar = crate::vec3::norm(normal, ar).max(least_normal());
        Plane {
            point,
            normal: [over(ar, normal[0], len), over(ar, normal[1], len), over(ar, normal[2], len)],
        }
    }

    /// How far `pos` lies from the plane, on the side of the normal.
    pub open spec fn distance<F: Fn(Op, Scalar, Scalar, Scalar) -> Scalar>(&self, ar: F, pos: Vec3) -> Scalar {
        let part = |d: int|
            product(ar, difference(ar, pos[d], self.point[d]), self.normal[d]);
        sum(ar, sum(ar, part(0), part(1)), part(2))
    }

    /// The distance is computed without rounding.
    pub open spec fn exact_side<F: Fn(Op, Scalar, Scalar, Scalar) -> Scalar>(&self, ar: F, pos: Vec3) -> bool {
        let a = product(ar, difference(ar, pos[0], self.point[0]), self.normal[0]);
        let b = product(ar, difference(ar, pos[1], self.point[1]), self.normal[1]);
        let c = product(ar, difference(ar, pos[2], self.point[2]), self.normal[2]);
        &&& exact_difference(ar, pos[0], self.point[0])
        &&& exact_difference(ar, pos[1], self.point[1])
        &&& exact_difference(ar, pos[2], self.point[2])
        &&& exact_product(ar, difference(ar, pos[0], self.point[0]), self.normal[0])
        &&& exact_product(ar, difference(ar, pos[1], self.point[1]), self.normal[1])
        &&& exact_product(ar, difference(ar, pos[2], self.point[2]), self.normal[2])
        &&& exact_sum(ar, a, b)
        &&& exact_sum(ar, sum(ar, a, b), c)
    }

    /// How far `pos` lies from the plane: positive on the side of the normal.
    pub fn signed_distance<F: Fn(Op, Scalar, Scalar, Scalar) -> Scalar>(&self, pos: Vec3, ar: &F) -> (r:
        Scalar)
        requires
            is_arithmetic(*ar),
        ensures
            r == self.distance(*ar, pos),
            self.exact_side(*ar, pos) ==> num(r) == (num(pos[0]) - num(self.point[0])) * num(
                self.normal[0],
            ) + (num(pos[1]) - num(self.point[1])) * num(self.normal[1]) + (num(pos[2]) - num(
                self.point[2],
            )) * num(self.normal[2]),
    {
        let x: Scalar = times(ar, minus(ar, pos[0], self.point[0]), self.normal[0]);
        let y: Scalar = times(ar, minus(ar, pos[1], self.point[1]), self.normal[1]);
        let z: Scalar = times(ar, minus(ar, pos[2], self.point[2]), self.normal[2]);
        plus(ar, plus(ar, x, y), z)
    }

    /// How deep a sphere of radius `radius` around `pos` reaches through the
    /// plane.
    pub fn overlap<F: Fn(Op, Scalar, Scalar, Scalar) -> Scalar>(
        &self,
        pos: Vec3,
        radius: Scalar,
        ar: &F,
    ) -> (r: Scalar)
        requires
            is_arithmetic(*ar),
        ensures
            r == difference(*ar, radius, self.distance(*ar, pos)),
            exact_difference(*ar, radius, self.distance(*ar, pos)) ==> num(r) + num(
                self.distance(*ar, pos),
            ) == num(radius),
    {
        minus(ar, radius, self.signed_distance(pos, ar))
    }
}

/// A plane as the device holds it: two four-vectors whose last component is
/// zero.
#[derive(Clone, Copy)]
pub struct GpuPlane {
    pub point: [Scalar; 4],
    pub normal: [Scalar; 4],
}

/// A set of planes.
pub struct Boundary {
    pub planes: Vec<Plane>,
}

impl Default for Boundary {
    fn default() -> (r: Boundary)
        ensures
            r.planes@.len() == 0,
    {
        Boundary::new()
    }
}

/// `g` is the device's form of `p`.
pub open spec fn packs(p: Plane, g: GpuPlane) -> bool {
    &&& forall|d: int| 0 <= d < 3 ==> #[trigger] g.point[d] == p.point[d]
    &&& forall|d: int| 0 <= d < 3 ==> #[trigger] g.normal[d] == p.normal[d]
    &&& g.point[3] == Scalar::zero()
    &&& g.normal[3] == Scalar::zero()
}

impl Boundary {
    pub fn new() -> (r: Boundary)
        ensures
            r.planes@.len() == 0,
    {
        Boundary { planes: Vec::new() }
    }

    pub fn push(&mut self, plane: Plane)
        ensures
            final(self).planes@ == old(self).planes@.push(plane),
    {
        self.planes.push(plane);
    }

    pub fn len(&self) -> (r: usize)
        ensures
            r == self.planes@.len(),
    {
        self.planes.len()
    }

    pub fn is_empty(&self) -> (r: bool)
        ensures
            r == (self.planes@.len() == 0),
    {
        self.planes.len() == 0
    }

    /// The planes in the form of the device, in order.
    pub fn to_gpu(&self) -> (r: Vec<GpuPlane>)
        ensures
            r@.len() == self.planes@.len(),
            forall|k: int| 0 <= k < r@.len() ==> packs(self.planes@[k], #[trigger] r@[k]),
    {
        let mut out: Vec<GpuPlane> = Vec::new();
        let mut k: usize = 0;
        while k < self.planes.len()
            invariant
                k <= self.planes@.len(),
                out@.len() == k,
                forall|j: int| 0 <= j < k ==> packs(self.planes@[j], #[trigger] out@[j]),
            decreases self.planes.len() - k,
        {
            let p: Plane = self.planes[k];
            out.push(
                GpuPlane {
                    point: [p.point[0], p.point[1], p.point[2], Scalar::zero()],
                    normal: [p.normal[0], p.normal[1], p.normal[2], Scalar::zero()],
                },
            );
            k = k + 1;
        }
        out
    }
}

} // verus!
