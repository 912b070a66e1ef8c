//! The virial stress, accumulated from pair forces.

use crate::exact::{exact_product, exact_sum, num};
use crate::scalar::{is_arithmetic, plus, product, sum, times, Op, Scalar};
use vstd::prelude::*;

verus! {

/// The six components of the virial, and when they are computed.
pub struct VirialStress {
    pub xx: Scalar,
    pub yy: Scalar,
    pub zz: Scalar,
    pub xy: Scalar,
    pub xz: Scalar,
    pub yz: Scalar,
    pub active: bool,
    pub interval: Option<usize>,
}

impl Default for VirialStress {
    fn default() -> (r: Self)
        ensures
            r.cleared(),
            r.active,
            r.interval is None,
    {
        let zero: Scalar = Scalar::zero();
        VirialStress {
            xx: zero,
            yy: zero,
            zz: zero,
            xy: zero,
            xz: zero,
            yz: zero,
            active: true,
            interval: None,
        }
    }
}

impl VirialStress {
    /// All components are zero.
    pub open spec fn cleared(&self) -> bool {
        let zero = Scalar::zero();
        self.xx == zero && self.yy == zero && self.zz == zero && self.xy == zero && self.xz == zero
            && self.yz == zero
    }

    /// The components agree.
    pub open spec fn same_stress(&self, other: &VirialStress) -> bool {
        self.xx == other.xx && self.yy == other.yy && self.zz == other.zz && self.xy == other.xy
            && self.xz == other.xz && self.yz == other.yz
    }

    /// Sets all components to zero.
    pub fn zero(&mut self)
        ensures
            final(self).cleared(),
            final(self).active == old(self).active,
            final(self).interval == old(self).interval,
    {
        self.xx = Scalar::zero();
        self.yy = Scalar::zero();
        self.zz = Scalar::zero();
        self.xy = Scalar::zero();
        self.xz = Scalar::zero();
        self.yz = Scalar::zero();
    }

    /// Adds the contribution of a pair: distance times force.
    pub fn add_pair<F: Fn(Op, Scalar, Scalar, Scalar) -> Scalar>(
        &mut self,
        dx: Scalar,
        dy: Scalar,
        dz: Scalar,
        fx: Scalar,
        fy: Scalar,
        fz: Scalar,
        ar: &F,
    )
        requires
            is_arithmetic(*ar),
        ensures
            final(self).xx == sum(*ar, old(self).xx, product(*ar, dx, fx)),
            final(self).yy == sum(*ar, old(self).yy, product(*ar, dy, fy)),
            final(self).zz == sum(*ar, old(self).zz, product(*ar, dz, fz)),
            final(self).xy == sum(*ar, old(self).xy, product(*ar, dx, fy)),
            final(self).xz == sum(*ar, old(self).xz, product(*ar, dx, fz)),
            final(self).yz == sum(*ar, old(self).yz, product(*ar, dy, fz)),
            exact_product(*ar, dx, fx) && exact_sum(*ar, old(self).xx, product(*ar, dx, fx)) ==> num(
                final(self).xx,
            ) == num(old(self).xx) + num(dx) * num(fx),
            exact_product(*ar, dy, fy) && exact_sum(*ar, old(self).yy, product(*ar, dy, fy)) ==> num(
                final(self).yy,
            ) == num(old(self).yy) + num(dy) * num(fy),
            exact_product(*ar, dz, fz) && exact_sum(*ar, old(self).zz, product(*ar, dz, fz)) ==> num(
                final(self).zz,
            ) == num(old(self).zz) + num(dz) * num(fz),
            exact_product(*ar, dx, fy) && exact_sum(*ar, old(self).xy, product(*ar, dx, fy)) ==> num(
                final(self).xy,
            ) == num(old(self).xy) + num(dx) * num(fy),
            exact_product(*ar, dx, fz) && exact_sum(*ar, old(self).xz, product(*ar, dx, fz)) ==> num(
                final(self).xz,
            ) == num(old(self).xz) + num(dx) * num(fz),
            exact_product(*ar, dy, fz) && exact_sum(*ar, old(self).yz, product(*ar, dy, fz)) ==> num(
                final(self).yz,
            ) == num(old(self).yz) + num(dy) * num(fz),
            final(self).active == old(self).active,
            final(self).interval == old(self).interval,
    {
        self.xx = plus(ar, self.xx, times(ar, dx, fx));
        self.yy = plus(ar, self.yy, times(ar, dy, fy));
        self.zz = plus(ar, self.zz, times(ar, dz, fz));
        self.xy = plus(ar, self.xy, times(ar, dx, fy));
        self.xz = plus(ar, self.xz, times(ar, dx, fz));
        self.yz = plus(ar, self.yz, times(ar, dy, fz));
    }

    /// The sum of the diagonal.
    pub fn trace<F: Fn(Op, Scalar, Scalar, Scalar) -> Scalar>(&self, ar: &F) -> (r: Scalar)
        requires
            is_arithmetic(*ar),
        ensures
            r == sum(*ar, sum(*ar, self.xx, self.yy), self.zz),
            exact_sum(*ar, self.xx, self.yy) && exact_sum(*ar, sum(*ar, self.xx, self.yy), self.zz)
                ==> num(r) == num(self.xx) + num(self.yy) + num(self.zz),
    {
        plus(ar, plus(ar, self.xx, self.yy), self.zz)
    }

    /// Asks for the virial every `every` steps; the most frequent request
    /// counts, and 0 asks for nothing.
    pub fn set_interval(&mut self, every: usize)
        ensures
            final(self).interval == requested(old(self).interval, every),
            final(self).same_stress(old(self)),
            final(self).active == old(self).active,
    {
        if every == 0 {
            return;
        }
        self.interval = Some(
            match self.interval {
                None => every,
                Some(cur) => if cur < every {
                    cur
                } else {
                    every
                },
            },
        );
    }
}

/// The interval after one more request.
pub open spec fn requested(interval: Option<usize>, every: usize) -> Option<usize> {
    if every == 0 {
        interval
    } else {
        match interval {
            None => Some(every),
            Some(cur) => Some(
                if cur < every {
                    cur
                } else {
                    every
                },
            ),
        }
    }
}

/// The interval after the first `n` requests.
pub open spec fn requested_all(requests: Seq<usize>, n: int) -> Option<usize>
    decreases n,
{
    if n <= 0 {
        None
    } else {
        requested(requested_all(requests, n - 1), requests[n - 1])
    }
}

/// The interval is the least of the requests that are not 0, and there is none
/// where all are 0.
pub proof fn most_frequent_request_wins(requests: Seq<usize>, n: int)
    requires
        0 <= n <= requests.len(),
    ensures
        match requested_all(requests, n) {
            None => forall|i: int| 0 <= i < n ==> #[trigger] requests[i] == 0,
            Some(m) => {
                &&& m > 0
                &&& exists|i: int| 0 <= i < n && #[trigger] requests[i] == m
                &&& forall|i: int| 0 <= i < n && #[trigger] requests[i] > 0 ==> m <= requests[i]
            },
        },
    decreases n,
{
    if n > 0 {
        most_frequent_request_wins(requests, n - 1);
        match requested_all(requests, n) {
            None => {},
            Some(m) => {
                if requests[n - 1] == m {
                    assert(0 <= n - 1 < n && requests[n - 1] == m);
                } else {
                    let i: int = choose|i: int| 0 <= i < n - 1 && #[trigger] requests[i] == m;
                    assert(0 <= i < n && requests[i] == m);
                }
            },
        }
    }
}

/// Decides whether the virial is computed in this step, and clears it if so.
pub fn zero_virial_stress(virial: &mut VirialStress, total_cycle: usize)
    ensures
        final(virial).interval == old(virial).interval,
        final(virial).active == match old(virial).interval {
            None => true,
            Some(n) => if n == 0 {
                total_cycle == 0
            } else {
                total_cycle as int % n as int == 0
            },
        },
        old(virial).interval is None ==> final(virial).active,
        old(virial).interval is Some && old(virial).interval->0 > 0 ==> (final(virial).active
            <==> exists|k: int| #[trigger] (k * old(virial).interval->0) == total_cycle),
        final(virial).active ==> final(virial).cleared(),
        !final(virial).active ==> final(virial).same_stress(old(virial)),
{
    proof {
        if virial.interval is Some && virial.interval->0 > 0 {
            crate::stages::multiples_are_whole_intervals(
                total_cycle as int,
                virial.interval->0 as int,
            );
        }
    }
    virial.active = match virial.interval {
        None => true,
        Some(n) => if n == 0 {
            total_cycle == 0
        } else {
            total_cycle % n == 0
        },
    };
    if virial.active {
        virial.zero();
    }
}

} // verus!
