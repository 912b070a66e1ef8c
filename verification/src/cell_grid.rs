//! The grid of cells in which the device sorts the atoms.

use crate::device::{buffer_bytes, buffer_size};
use crate::scalar::{
    difference, is_arithmetic, minus, over, plus, quotient, sum, Op, Scalar, Vec3,
};
use vstd::prelude::*;

verus! {

/// The least positive normal number of single precision.
#[verifier::allow_in_spec]
pub fn least_normal() -> (r: Scalar)
    returns
        (Scalar { bits: 0x3810_0000_0000_0000 }),
{
    Scalar { bits: 0x3810_0000_0000_0000 }
}

/// The greatest finite number of single precision.
#[verifier::allow_in_spec]
pub fn greatest_single() -> (r: Scalar)
    returns
        (Scalar { bits: 0x47EF_FFFF_E000_0000 }),
{
    Scalar { bits: 0x47EF_FFFF_E000_0000 }
}

/// The least finite number of single precision.
#[verifier::allow_in_spec]
pub fn least_single() -> (r: Scalar)
    returns
        (Scalar { bits: 0xC7EF_FFFF_E000_0000 }),
{
    Scalar { bits: 0xC7EF_FFFF_E000_0000 }
}

/// The least coordinate `d` of the first `k` positions.
pub open spec fn lowest(pos: Seq<Vec3>, d: int, k: int) -> Scalar
    decreases k,
{
    if k <= 0 {
        greatest_single()
    } else {
        lowest(pos, d, k - 1).smaller(pos[k - 1][d])
    }
}

/// The greatest coordinate `d` of the first `k` positions.
pub open spec fn highest(pos: Seq<Vec3>, d: int, k: int) -> Scalar
    decreases k,
{
    if k <= 0 {
        least_single()
    } else {
        highest(pos, d, k - 1).greater(pos[k - 1][d])
    }
}

/// The grid: a number of cells, an origin and a cell size.
#[derive(Clone, Copy)]
pub struct Grid {
    pub n: [i32; 3],
    pub origin: Vec3,
    pub bin_size: Scalar,
    pub total_cells: usize,
}

/// The size of a cell: the cutoff, kept positive.
pub open spec fn cell_size(cutoff: Scalar) -> Scalar {
    cutoff.greater(least_normal())
}

/// Where the grid begins along `d`: one cell in front of the first atom.
pub open spec fn origin_of<F: Fn(Op, Scalar, Scalar, Scalar) -> Scalar>(
    ar: F,
    pos: Seq<Vec3>,
    cutoff: Scalar,
    d: int,
) -> Scalar {
    difference(ar, lowest(pos, d, pos.len() as int), cell_size(cutoff))
}

/// The cells along `d`: up to one cell behind the last atom, at least one.
pub open spec fn cells_of<F: Fn(Op, Scalar, Scalar, Scalar) -> Scalar>(
    ar: F,
    pos: Seq<Vec3>,
    cutoff: Scalar,
    d: int,
) -> int {
    let size = cell_size(cutoff);
    let end = sum(ar, highest(pos, d, pos.len() as int), size);
    let cells = crate::scalar::clamp_int(
        quotient(ar, difference(ar, end, origin_of(ar, pos, cutoff, d)), size).ceiling(),
        i32::MIN as int,
        i32::MAX as int,
    );
    if cells < 1 {
        1
    } else {
        cells
    }
}

/// The number of cells.
pub open spec fn all_cells<F: Fn(Op, Scalar, Scalar, Scalar) -> Scalar>(
    ar: F,
    pos: Seq<Vec3>,
    cutoff: Scalar,
) -> int {
    cells_of(ar, pos, cutoff, 0) * cells_of(ar, pos, cutoff, 1) * cells_of(ar, pos, cutoff, 2)
}

impl Grid {
    /// This is the grid around the positions.
    pub open spec fn surrounds<F: Fn(Op, Scalar, Scalar, Scalar) -> Scalar>(
        &self,
        ar: F,
        pos: Seq<Vec3>,
        cutoff: Scalar,
    ) -> bool {
        &&& self.bin_size == cell_size(cutoff)
        &&& forall|d: int|
            0 <= d < 3 ==> #[trigger] self.n[d] == cells_of(ar, pos, cutoff, d) && self.origin[d]
                == origin_of(ar, pos, cutoff, d)
        &&& self.total_cells == all_cells(ar, pos, cutoff)
    }

    /// The grid around the positions, with cells of the size of the cutoff. The
    /// arithmetic is that of single precision.
    pub fn from_positions<F: Fn(Op, Scalar, Scalar, Scalar) -> Scalar>(
        pos: &[Vec3],
        cutoff: Scalar,
        ar: &F,
    ) -> (r: Grid)
        requires
            is_arithmetic(*ar),
            all_cells(*ar, pos@, cutoff) <= i32::MAX,
        ensures
            r.surrounds(*ar, pos@, cutoff),
    {
        match Grid::try_from_positions(pos, cutoff, ar) {
            Some(g) => g,
            None => vstd::pervasive::unreached(),
        }
    }

    /// The grid around the positions; `None` where the number of cells does not
    /// fit.
    pub fn try_from_positions<F: Fn(Op, Scalar, Scalar, Scalar) -> Scalar>(
        pos: &[Vec3],
        cutoff: Scalar,
        ar: &F,
    ) -> (r: Option<Grid>)
        requires
            is_arithmetic(*ar),
        ensures
            match r {
                Some(g) => g.surrounds(*ar, pos@, cutoff),
                None => all_cells(*ar, pos@, cutoff) > i32::MAX,
            },
    {
        let mut lo: Vec3 = [greatest_single(), greatest_single(), greatest_single()];
        let mut hi: Vec3 = [least_single(), least_single(), least_single()];
        let mut i: usize = 0;
        while i < pos.len()
            invariant
                i <= pos@.len(),
                forall|d: int|
                    0 <= d < 3 ==> #[trigger] lo[d] == lowest(pos@, d, i as int) && hi[d] == highest(
                        pos@,
                        d,
                        i as int,
                    ),
            decreases pos.len() - i,
        {
            let p: Vec3 = pos[i];
            let ghost lo_before: Vec3 = lo;
            let ghost hi_before: Vec3 = hi;
            lo = [lo[0].min(p[0]), lo[1].min(p[1]), lo[2].min(p[2])];
            hi = [hi[0].max(p[0]), hi[1].max(p[1]), hi[2].max(p[2])];
            assert forall|d: int| 0 <= d < 3 implies #[trigger] lo[d] == lowest(pos@, d, i + 1)
                && hi[d] == highest(pos@, d, i + 1) by {
                assert(lo_before[d] == lowest(pos@, d, i as int));
            }
            i = i + 1;
        }
        let bin_size: Scalar = cutoff.max(least_normal());
        let mut n: [i32; 3] = [1, 1, 1];
        let mut origin: Vec3 = [Scalar::zero(), Scalar::zero(), Scalar::zero()];
        let mut d: usize = 0;
        while d < 3
            invariant
                is_arithmetic(*ar),
                d <= 3,
                bin_size == cell_size(cutoff),
                forall|k: int|
                    0 <= k < 3 ==> #[trigger] lo[k] == lowest(pos@, k, pos@.len() as int) && hi[k]
                        == highest(pos@, k, pos@.len() as int),
                forall|k: int|
                    0 <= k < d ==> #[trigger] n[k] == cells_of(*ar, pos@, cutoff, k) && origin[k]
                        == origin_of(*ar, pos@, cutoff, k),
            decreases 3 - d,
        {
            assert(lo[d as int] == lowest(pos@, d as int, pos@.len() as int));
            let o: Scalar = minus(ar, lo[d], bin_size);
            let span: Scalar = minus(ar, plus(ar, hi[d], bin_size), o);
            let cells: i32 = over(ar, span, bin_size).ceil_i32();
            n[d] = if cells < 1 {
                1
            } else {
                cells
            };
            origin[d] = o;
            d = d + 1;
        }
        assert(n[0] == cells_of(*ar, pos@, cutoff, 0));
        assert(n[1] == cells_of(*ar, pos@, cutoff, 1));
        assert(n[2] == cells_of(*ar, pos@, cutoff, 2));
        proof {
            assert(1 <= n[0] * n[1] <= 0x7FFF_FFFF * 0x7FFF_FFFF) by (nonlinear_arith)
                requires
                    1 <= n[0] <= 0x7FFF_FFFF,
                    1 <= n[1] <= 0x7FFF_FFFF,
            ;
        }
        let plane: u64 = n[0] as u64 * n[1] as u64;
        if plane > 0x7FFF_FFFF {
            proof {
                assert(plane * n[2] > 0x7FFF_FFFF) by (nonlinear_arith)
                    requires
                        plane > 0x7FFF_FFFF,
                        n[2] >= 1,
                ;
            }
            return None;
        }
        proof {
            assert(1 <= plane * n[2] <= 0x7FFF_FFFF * 0x7FFF_FFFF) by (nonlinear_arith)
                requires
                    1 <= plane <= 0x7FFF_FFFF,
                    1 <= n[2] <= 0x7FFF_FFFF,
            ;
        }
        let total: u64 = plane * n[2] as u64;
        if total > 0x7FFF_FFFF {
            return None;
        }
        Some(Grid { n, origin, bin_size, total_cells: total as usize })
    }

    /// The reciprocal of the cell size.
    pub fn inverse_size<F: Fn(Op, Scalar, Scalar, Scalar) -> Scalar>(&self, ar: &F) -> (r: Scalar)
        requires
            is_arithmetic(*ar),
        ensures
            r == quotient(*ar, Scalar::one(), self.bin_size),
    {
        over(ar, Scalar::one(), self.bin_size)
    }
}

/// The sizes in bytes of the buffers of a cell list.
pub struct CellBuffers {
    pub pos: u64,
    pub atom_cell: u64,
    pub cell_count: u64,
    pub cell_start: u64,
    pub cursor: u64,
    pub sorted_atoms: u64,
    pub staging: u64,
}

/// The sizes of the buffers for `n` atoms and `total_cells` cells.
pub fn cell_buffers(n: usize, total_cells: usize) -> (r: CellBuffers)
    requires
        buffer_size(n as int, 3) <= usize::MAX,
        buffer_size(total_cells as int, 1) + 4 <= usize::MAX,
    ensures
        r.pos == buffer_size(n as int, 3),
        r.atom_cell == buffer_size(n as int, 1),
        r.cell_count == buffer_size(total_cells as int, 1),
        r.cell_start == buffer_size(total_cells as int, 1) + 4,
        r.cursor == r.cell_count,
        r.sorted_atoms == r.atom_cell,
        r.staging == if r.cell_start < r.atom_cell {
            r.atom_cell
        } else {
            r.cell_start
        },
{
    let atoms: u64 = buffer_bytes(n, 1);
    let cells: u64 = buffer_bytes(total_cells, 1);
    let starts: u64 = cells + 4;
    CellBuffers {
        pos: buffer_bytes(n, 3),
        atom_cell: atoms,
        cell_count: cells,
        cell_start: starts,
        cursor: cells,
        sorted_atoms: atoms,
        staging: if starts < atoms {
            atoms
        } else {
            starts
        },
    }
}

} // verus!
