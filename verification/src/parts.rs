//! The parts that an axis of the box is cut into, and the part that an atom is handed
//! over to.

use crate::conserve::{above, under};
use crate::exact::{exact_difference, lemma_constants, lemma_mul_add, lemma_order, num};
use crate::exchange::{nearest_image, side};
use crate::scalar::{difference, Op, Scalar};
use crate::unrounded::{exact_image, lemma_image};
use vstd::prelude::*;

verus! {

/// An axis of the box, cut into parts of the same width, one for each process.
pub struct Parts {
    pub count: int,
    pub low: real,
    pub width: real,
    pub periodic: bool,
}

impl Parts {
    pub open spec fn valid(self) -> bool {
        self.count >= 1 && self.width > 0real
    }

    /// Where part `p` begins.
    pub open spec fn start(self, p: int) -> real {
        self.low + p as real * self.width
    }

    /// Part `p` holds the coordinate.
    pub open spec fn holds(self, p: int, x: real) -> bool {
        self.start(p) <= x < self.start(p + 1)
    }

    /// The process that gets what process `p` gives to side `s`; `p` itself where it
    /// keeps it.
    pub open spec fn receiver(self, p: int, s: int) -> Option<int> {
        if s < 0 {
            under(p, self.count, self.periodic)
        } else if s > 0 {
            above(p, self.count, self.periodic)
        } else {
            Some(p)
        }
    }

    /// The coordinate lies in part `q`, which is part `p` or next to it. Of three parts
    /// around a periodic axis each is next to both others: there a coordinate above
    /// part `p` lies within half a part of it, so that it is nearer from there.
    pub open spec fn next_to(self, p: int, q: int, x: real) -> bool {
        &&& 0 <= q < self.count
        &&& self.holds(q, x)
        &&& {
            ||| q == p
            ||| under(p, self.count, self.periodic) == Some(q)
            ||| above(p, self.count, self.periodic) == Some(q) && (self.periodic && self.count == 3
                ==> 2real * (x - self.start(q)) < self.width)
        }
    }

    /// The coordinate lies in part `p` or next to it.
    pub open spec fn near(self, p: int, x: real) -> bool {
        exists|q: int| #[trigger] self.next_to(p, q, x)
    }
}

/// What tells where an atom belongs along an axis is computed without rounding.
pub open spec fn exact_side<F: Fn(Op, Scalar, Scalar, Scalar) -> Scalar>(
    ar: F,
    pos: Scalar,
    low: Scalar,
    high: Scalar,
    size: Scalar,
    periodic: bool,
) -> bool {
    &&& exact_difference(ar, pos, low)
    &&& exact_difference(ar, pos, high)
    &&& periodic ==> exact_image(ar, difference(ar, pos, low), size) && exact_image(
        ar,
        difference(ar, pos, high),
        size,
    )
}

/// The nearest image as a real number.
pub open spec fn near_image(d: real, l: real, periodic: bool) -> real {
    if periodic && d + d > l {
        d - l
    } else if periodic && d + d < -l {
        d + l
    } else {
        d
    }
}

proof fn lemma_real_side<F: Fn(Op, Scalar, Scalar, Scalar) -> Scalar>(
    ar: F,
    pos: Scalar,
    low: Scalar,
    high: Scalar,
    size: Scalar,
    periodic: bool,
)
    requires
        exact_side(ar, pos, low, high, size, periodic),
    ensures
        side(ar, pos, low, high, size, periodic) == (if near_image(
            num(pos) - num(low),
            num(size),
            periodic,
        ) < 0real {
            -1int
        } else if near_image(num(pos) - num(high), num(size), periodic) >= 0real {
            1
        } else {
            0
        }),
{
    lemma_constants();
    let (a, b): (Scalar, Scalar) = (difference(ar, pos, low), difference(ar, pos, high));
    if periodic {
        lemma_image(ar, a, size);
        lemma_image(ar, b, size);
    }
    lemma_order(nearest_image(ar, a, size, periodic), Scalar::zero());
    lemma_order(nearest_image(ar, b, size, periodic), Scalar::zero());
}

/// The start of part `p`, counted from part `q`, and the length of all parts.
proof fn lemma_starts(parts: Parts, p: int, q: int)
    requires
        parts.valid(),
        0 <= p < parts.count,
        0 <= q < parts.count,
    ensures
        parts.start(q + 1) == parts.start(q) + parts.width,
        parts.start(p + 1) == parts.start(p) + parts.width,
        q == p + 1 ==> parts.start(q) == parts.start(p) + parts.width,
        p == q + 1 ==> parts.start(p) == parts.start(q) + parts.width,
        q == 0 ==> parts.start(q) == parts.low,
        p == 0 ==> parts.start(p) == parts.low,
        q == parts.count - 1 ==> parts.start(q) == parts.low + parts.count as real * parts.width
            - parts.width,
        p == parts.count - 1 ==> parts.start(p) == parts.low + parts.count as real * parts.width
            - parts.width,
        parts.count >= 2 ==> parts.count as real * parts.width >= 2real * parts.width,
        parts.count == 2 ==> parts.count as real * parts.width == 2real * parts.width,
        parts.count == 3 ==> parts.count as real * parts.width == 3real * parts.width,
        parts.count >= 4 ==> parts.count as real * parts.width >= 4real * parts.width,
{
    let w: real = parts.width;
    lemma_mul_add(w, p as real, 1real);
    lemma_mul_add(w, q as real, 1real);
    assert((p + 1) as real == p as real + 1real);
    assert((q + 1) as real == q as real + 1real);
    assert(0real * w == 0real);
    let n: real = parts.count as real;
    if parts.count >= 2 {
        assert(n * w >= 2real * w) by (nonlinear_arith)
            requires
                n >= 2real,
                w > 0real,
        ;
    }
    if parts.count >= 4 {
        assert(n * w >= 4real * w) by (nonlinear_arith)
            requires
                n >= 4real,
                w > 0real,
        ;
    }
}

/// An atom that is in a process's own part or next to it is kept by the process, or
/// handed over to the one, whose part it lies in.
pub proof fn atoms_go_to_their_owners<F: Fn(Op, Scalar, Scalar, Scalar) -> Scalar>(
    ar: F,
    parts: Parts,
    p: int,
    q: int,
    pos: Scalar,
    low: Scalar,
    high: Scalar,
    size: Scalar,
)
    requires
        parts.valid(),
        parts.count >= 2,
        0 <= p < parts.count,
        num(low) == parts.start(p),
        num(high) == parts.start(p + 1),
        num(size) == parts.count as real * parts.width,
        exact_side(ar, pos, low, high, size, parts.periodic),
        parts.next_to(p, q, num(pos)),
    ensures
        parts.receiver(p, side(ar, pos, low, high, size, parts.periodic)) == Some(q),
{
    lemma_real_side(ar, pos, low, high, size, parts.periodic);
    lemma_starts(parts, p, q);
}

} // verus!
