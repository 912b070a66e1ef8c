//! The bin grid and the stencil of neighbouring cells.

use crate::scalar::{int_word, is_arithmetic, plus, product, sum, times, Op, Scalar, Vec3};
use vstd::prelude::*;

verus! {

/// Row-major distance between two cells that lie `dx`, `dy`, `dz` apart.
pub open spec fn cell_offset(count: [i32; 3], dx: int, dy: int, dz: int) -> int {
    dx * (count[1] * count[2]) + dy * count[2] + dz
}

/// The number of whole cells between two cells that lie `d` apart.
pub open spec fn gap(d: int) -> u32 {
    if d > 1 {
        (d - 1) as u32
    } else if d < -1 {
        (-d - 1) as u32
    } else {
        0
    }
}

/// Cells that lie `dx`, `dy`, `dz` apart are near enough to be searched.
pub open spec fn reaches(near: spec_fn(u32, u32, u32) -> bool, dx: int, dy: int, dz: int) -> bool {
    near(gap(dx), gap(dy), gap(dz))
}

/// The squared distance over gaps of so many cells.
pub open spec fn gap_squared<F: Fn(Op, Scalar, Scalar, Scalar) -> Scalar>(
    ar: F,
    bin_size: Vec3,
    a: u32,
    b: u32,
    c: u32,
) -> Scalar {
    let x = product(ar, int_word(a as int), bin_size[0]);
    let y = product(ar, int_word(b as int), bin_size[1]);
    let z = product(ar, int_word(c as int), bin_size[2]);
    sum(ar, sum(ar, product(ar, x, x), product(ar, y, y)), product(ar, z, z))
}

/// Cells are near where the gaps between them span less than the cutoff.
pub open spec fn within_cutoff<F: Fn(Op, Scalar, Scalar, Scalar) -> Scalar>(
    ar: F,
    bin_size: Vec3,
    cutoff_sq: Scalar,
) -> spec_fn(u32, u32, u32) -> bool {
    |a: u32, b: u32, c: u32| gap_squared(ar, bin_size, a, b, c).below(cutoff_sq)
}

/// The offsets along z for the first `n` values of `dz`.
pub open spec fn line(
    near: spec_fn(u32, u32, u32) -> bool,
    count: [i32; 3],
    layers: [i32; 3],
    dx: int,
    dy: int,
    n: int,
) -> Seq<i32>
    decreases n,
{
    if n <= 0 {
        Seq::empty()
    } else {
        let dz: int = n - 1 - layers[2];
        let rest: Seq<i32> = line(near, count, layers, dx, dy, n - 1);
        if reaches(near, dx, dy, dz) {
            rest.push(cell_offset(count, dx, dy, dz) as i32)
        } else {
            rest
        }
    }
}

/// The offsets in a plane of cells for the first `n` values of `dy`.
pub open spec fn plane(
    near: spec_fn(u32, u32, u32) -> bool,
    count: [i32; 3],
    layers: [i32; 3],
    dx: int,
    n: int,
) -> Seq<i32>
    decreases n,
{
    if n <= 0 {
        Seq::empty()
    } else {
        plane(near, count, layers, dx, n - 1) + line(
            near,
            count,
            layers,
            dx,
            n - 1 - layers[1],
            2 * layers[2] + 1,
        )
    }
}

/// The offsets for the first `n` values of `dx`.
pub open spec fn cube(
    near: spec_fn(u32, u32, u32) -> bool,
    count: [i32; 3],
    layers: [i32; 3],
    n: int,
) -> Seq<i32>
    decreases n,
{
    if n <= 0 {
        Seq::empty()
    } else {
        cube(near, count, layers, n - 1) + plane(
            near,
            count,
            layers,
            n - 1 - layers[0],
            2 * layers[1] + 1,
        )
    }
}

/// All offsets of near cells, in the order of `dx`, `dy`, `dz`.
pub open spec fn stencil_of(
    near: spec_fn(u32, u32, u32) -> bool,
    count: [i32; 3],
    layers: [i32; 3],
) -> Seq<i32> {
    cube(near, count, layers, 2 * layers[0] + 1)
}

/// The positive elements of `s`, in order.
pub open spec fn positive(s: Seq<i32>) -> Seq<i32>
    decreases s.len(),
{
    if s.len() == 0 {
        Seq::empty()
    } else if s.last() > 0 {
        positive(s.drop_last()).push(s.last())
    } else {
        positive(s.drop_last())
    }
}

/// A grid with room for its ghost layers: `layers` on either side of at least
/// one interior cell, and no more cells than an `i32` counts.
pub open spec fn grid_ok(count: [i32; 3], layers: [i32; 3]) -> bool {
    &&& 0 <= layers[0] && 2 * layers[0] + 1 <= count[0]
    &&& 0 <= layers[1] && 2 * layers[1] + 1 <= count[1]
    &&& 0 <= layers[2] && 2 * layers[2] + 1 <= count[2]
    &&& count[0] * (count[1] * count[2]) <= i32::MAX
}

/// The cells that are searched around a cell.
pub struct Stencil {
    /// Cells in each direction, ghost layers included.
    pub count: [i32; 3],
    /// All cells.
    pub total_cells: usize,
    /// All offsets.
    pub full: Vec<i32>,
    /// The positive offsets.
    pub forward: Vec<i32>,
    /// Whether the cell itself is searched.
    pub has_self: bool,
}

pub proof fn lemma_offset_fits(count: [i32; 3], layers: [i32; 3], dx: int, dy: int, dz: int)
    requires
        grid_ok(count, layers),
        -layers[0] <= dx <= layers[0],
        -layers[1] <= dy <= layers[1],
        -layers[2] <= dz <= layers[2],
    ensures
        i32::MIN < dx * (count[1] * count[2]) <= i32::MAX,
        i32::MIN < dx * (count[1] * count[2]) + dy * count[2] <= i32::MAX,
        i32::MIN < cell_offset(count, dx, dy, dz) <= i32::MAX,
        i32::MIN < dx * count[1] <= i32::MAX,
        dx * count[1] * count[2] == dx * (count[1] * count[2]),
        i32::MIN < dy * count[2] <= i32::MAX,
        -(layers[1] * count[2] + layers[2]) <= dy * count[2] + dz <= layers[1] * count[2] + layers[2],
        2 * (layers[1] * count[2] + layers[2]) < count[1] * count[2],
{
    let (sx, sy, sz): (int, int, int) = (layers[0] as int, layers[1] as int, layers[2] as int);
    let (nx, ny, nz): (int, int, int) = (count[0] as int, count[1] as int, count[2] as int);
    let a: int = ny * nz;
    assert(dx * ny * nz == dx * (ny * nz)) by (nonlinear_arith);
    assert(-(sy * nz) <= dy * nz <= sy * nz) by (nonlinear_arith)
        requires
            -sy <= dy <= sy,
            nz >= 1,
    ;
    assert(2 * (sy * nz + sz) < a) by (nonlinear_arith)
        requires
            a == ny * nz,
            2 * sy + 1 <= ny,
            2 * sz + 1 <= nz,
            0 <= sz,
    ;
    assert(-(sx * a) <= dx * a <= sx * a) by (nonlinear_arith)
        requires
            -sx <= dx <= sx,
            a >= 0,
    ;
    assert(sx * a + a <= nx * a) by (nonlinear_arith)
        requires
            2 * sx + 1 <= nx,
            sx >= 0,
            a >= 0,
    ;
    assert(-(sx * ny) <= dx * ny <= sx * ny) by (nonlinear_arith)
        requires
            -sx <= dx <= sx,
            ny >= 1,
    ;
    assert(sx * ny <= sx * a) by (nonlinear_arith)
        requires
            a == ny * nz,
            nz >= 1,
            ny >= 1,
            sx >= 0,
    ;
    assert(nx * a == nx * (ny * nz));
}

/// Chooses the bin grid for `interior` cells with `layers` of ghost cells on
/// either side, and the stencil of the cells that can hold atoms within the
/// cutoff of each other.
pub fn build_stencil<F: Fn(Op, Scalar, Scalar, Scalar) -> Scalar>(
    interior: [i32; 3],
    layers: [i32; 3],
    bin_size: Vec3,
    cutoff_sq: Scalar,
    ar: &F,
) -> (r: Stencil)
    requires
        is_arithmetic(*ar),
        interior[0] >= 1 && interior[1] >= 1 && interior[2] >= 1,
        layers[0] >= 0 && layers[1] >= 0 && layers[2] >= 0,
        (interior[0] + 2 * layers[0]) * ((interior[1] + 2 * layers[1]) * (interior[2] + 2
            * layers[2])) <= i32::MAX,
    ensures
        r.count[0] == interior[0] + 2 * layers[0],
        r.count[1] == interior[1] + 2 * layers[1],
        r.count[2] == interior[2] + 2 * layers[2],
        grid_ok(r.count, layers),
        r.total_cells == r.count[0] * (r.count[1] * r.count[2]),
        r.full@ == stencil_of(within_cutoff(*ar, bin_size, cutoff_sq), r.count, layers),
        r.forward@ == positive(r.full@),
        r.has_self == r.full@.contains(0),
{
    let ghost near = within_cutoff(*ar, bin_size, cutoff_sq);
    let (sx, sy, sz): (i32, i32, i32) = (layers[0], layers[1], layers[2]);
    proof {
        let (a, b, c): (int, int, int) = (
            interior[0] + 2 * layers[0],
            interior[1] + 2 * layers[1],
            interior[2] + 2 * layers[2],
        );
        assert(a <= a * (b * c) && b <= a * (b * c) && c <= a * (b * c) && b * c <= a * (b * c) && a * b
            <= a * (b * c) && a * b * c == a * (b * c)) by (nonlinear_arith)
            requires
                a >= 1,
                b >= 1,
                c >= 1,
        ;
    }
    let nx: i32 = interior[0] + 2 * sx;
    let ny: i32 = interior[1] + 2 * sy;
    let nz: i32 = interior[2] + 2 * sz;
    let count: [i32; 3] = [nx, ny, nz];
    assert(nx as int * ny >= 0 && nx as int * ny * nz >= 0) by (nonlinear_arith)
        requires
            nx >= 1,
            ny >= 1,
            nz >= 1,
    ;
    let total_cells: usize = (nx * ny * nz) as usize;
    let mut full: Vec<i32> = Vec::new();
    let mut forward: Vec<i32> = Vec::new();
    let mut has_self: bool = false;
    let mut dx: i32 = -sx;
    while dx <= sx
        invariant
            is_arithmetic(*ar),
            near == within_cutoff(*ar, bin_size, cutoff_sq),
            grid_ok(count, layers),
            count[0] == nx && count[1] == ny && count[2] == nz,
            layers[0] == sx && layers[1] == sy && layers[2] == sz,
            -sx <= dx <= sx + 1,
            full@ == cube(near, count, layers, dx + sx),
            forward@ == positive(full@),
            has_self == full@.contains(0),
        decreases sx - dx + 1,
    {
        let ghost cubes: Seq<i32> = full@;
        let mut dy: i32 = -sy;
        assert(cubes + plane(near, count, layers, dx as int, 0) =~= cubes);
        while dy <= sy
            invariant
                is_arithmetic(*ar),
            near == within_cutoff(*ar, bin_size, cutoff_sq),
                grid_ok(count, layers),
                count[0] == nx && count[1] == ny && count[2] == nz,
                layers[0] == sx && layers[1] == sy && layers[2] == sz,
                -sx <= dx <= sx,
                -sy <= dy <= sy + 1,
                full@ == cubes + plane(near, count, layers, dx as int, dy + sy),
                forward@ == positive(full@),
                has_self == full@.contains(0),
            decreases sy - dy + 1,
        {
            let ghost planes: Seq<i32> = full@;
            let mut dz: i32 = -sz;
            assert(planes + line(near, count, layers, dx as int, dy as int, 0) =~= planes);
            while dz <= sz
                invariant
                    is_arithmetic(*ar),
            near == within_cutoff(*ar, bin_size, cutoff_sq),
                    grid_ok(count, layers),
                    count[0] == nx && count[1] == ny && count[2] == nz,
                    layers[0] == sx && layers[1] == sy && layers[2] == sz,
                    -sx <= dx <= sx,
                    -sy <= dy <= sy,
                    -sz <= dz <= sz + 1,
                    full@ == planes + line(near, count, layers, dx as int, dy as int, dz + sz),
                    forward@ == positive(full@),
                    has_self == full@.contains(0),
                decreases sz - dz + 1,
            {
                if gaps_within(whole_cells(dx), whole_cells(dy), whole_cells(dz), bin_size, cutoff_sq, ar) {
                    proof {
                        lemma_offset_fits(count, layers, dx as int, dy as int, dz as int);
                    }
                    let offset: i32 = dx * ny * nz + dy * nz + dz;
                    let ghost before: Seq<i32> = full@;
                    full.push(offset);
                    proof {
                        assert(full@.drop_last() =~= before);
                        assert(full@.last() == offset);
                        assert(full@ =~= planes + line(
                            near,
                            count,
                            layers,
                            dx as int,
                            dy as int,
                            dz + sz + 1,
                        ));
                        if before.contains(0) {
                            let k: int = choose|k: int| 0 <= k < before.len() && before[k] == 0;
                            assert(full@[k] == 0);
                        }
                        if full@.contains(0) && offset != 0 {
                            let k: int = choose|k: int| 0 <= k < full@.len() && full@[k] == 0;
                            assert(before[k] == 0);
                        }
                    }
                    if offset > 0 {
                        forward.push(offset);
                    } else if offset == 0 {
                        has_self = true;
                    }
                }
                dz = dz + 1;
            }
            assert(full@ =~= cubes + plane(near, count, layers, dx as int, dy + sy + 1));
            dy = dy + 1;
        }
        dx = dx + 1;
    }
    Stencil { count, total_cells, full, forward, has_self }
}

/// Whether the gaps span less than the cutoff.
fn gaps_within<F: Fn(Op, Scalar, Scalar, Scalar) -> Scalar>(
    a: u32,
    b: u32,
    c: u32,
    bin_size: Vec3,
    cutoff_sq: Scalar,
    ar: &F,
) -> (r: bool)
    requires
        is_arithmetic(*ar),
    ensures
        r == within_cutoff(*ar, bin_size, cutoff_sq)(a, b, c),
{
    let x: Scalar = times(ar, Scalar::from_u64(a as u64), bin_size[0]);
    let y: Scalar = times(ar, Scalar::from_u64(b as u64), bin_size[1]);
    let z: Scalar = times(ar, Scalar::from_u64(c as u64), bin_size[2]);
    plus(ar, plus(ar, times(ar, x, x), times(ar, y, y)), times(ar, z, z)).lt(cutoff_sq)
}

/// The number of whole cells between two cells that lie `d` apart.
fn whole_cells(d: i32) -> (r: u32)
    requires
        d > i32::MIN,
    ensures
        r == gap(d as int),
{
    if d > 1 {
        (d - 1) as u32
    } else if d < -1 {
        (-d - 1) as u32
    } else {
        0
    }
}

/// `s` increases strictly.
pub open spec fn increasing(s: Seq<i32>) -> bool {
    forall|j: int, k: int| 0 <= j < k < s.len() ==> s[j] < s[k]
}

/// All elements of `s` lie in `lo..=hi`.
pub open spec fn between(s: Seq<i32>, lo: int, hi: int) -> bool {
    forall|k: int| 0 <= k < s.len() ==> lo <= #[trigger] s[k] <= hi
}

/// The offset `o` belongs to a pair of near cells.
pub open spec fn near_offset(
    near: spec_fn(u32, u32, u32) -> bool,
    count: [i32; 3],
    layers: [i32; 3],
    o: int,
    dx: int,
    dy: int,
    dz: int,
) -> bool {
    &&& -layers[0] <= dx <= layers[0]
    &&& -layers[1] <= dy <= layers[1]
    &&& -layers[2] <= dz <= layers[2]
    &&& reaches(near, dx, dy, dz)
    &&& o == cell_offset(count, dx, dy, dz)
}

proof fn lemma_line(
    near: spec_fn(u32, u32, u32) -> bool,
    count: [i32; 3],
    layers: [i32; 3],
    dx: int,
    dy: int,
    n: int,
)
    requires
        grid_ok(count, layers),
        -layers[0] <= dx <= layers[0],
        -layers[1] <= dy <= layers[1],
        0 <= n <= 2 * layers[2] + 1,
    ensures
        increasing(line(near, count, layers, dx, dy, n)),
        between(
            line(near, count, layers, dx, dy, n),
            cell_offset(count, dx, dy, -layers[2] as int),
            cell_offset(count, dx, dy, -layers[2] as int) + n - 1,
        ),
    decreases n,
{
    if n > 0 {
        lemma_line(near, count, layers, dx, dy, n - 1);
        lemma_offset_fits(count, layers, dx, dy, n - 1 - layers[2]);
    }
}

proof fn lemma_plane(
    near: spec_fn(u32, u32, u32) -> bool,
    count: [i32; 3],
    layers: [i32; 3],
    dx: int,
    n: int,
)
    requires
        grid_ok(count, layers),
        -layers[0] <= dx <= layers[0],
        0 <= n <= 2 * layers[1] + 1,
    ensures
        increasing(plane(near, count, layers, dx, n)),
        between(
            plane(near, count, layers, dx, n),
            cell_offset(count, dx, -layers[1] as int, -layers[2] as int),
            cell_offset(count, dx, n - 1 - layers[1], layers[2] as int),
        ),
    decreases n,
{
    if n > 0 {
        let dy: int = n - 1 - layers[1];
        let (sy, sz, nz): (int, int, int) = (layers[1] as int, layers[2] as int, count[2] as int);
        lemma_plane(near, count, layers, dx, n - 1);
        lemma_line(near, count, layers, dx, dy, 2 * layers[2] + 1);
        assert((dy - 1) * nz + sz < dy * nz - sz) by (nonlinear_arith)
            requires
                2 * sz + 1 <= nz,
        ;
        assert(-sy * nz <= dy * nz) by (nonlinear_arith)
            requires
                -sy <= dy,
                nz >= 1,
        ;
    }
}

proof fn lemma_cube(
    near: spec_fn(u32, u32, u32) -> bool,
    count: [i32; 3],
    layers: [i32; 3],
    n: int,
)
    requires
        grid_ok(count, layers),
        0 <= n <= 2 * layers[0] + 1,
    ensures
        increasing(cube(near, count, layers, n)),
        n > 0 ==> between(
            cube(near, count, layers, n),
            i32::MIN as int,
            cell_offset(count, n - 1 - layers[0], layers[1] as int, layers[2] as int),
        ),
    decreases n,
{
    if n > 0 {
        let dx: int = n - 1 - layers[0];
        let (sy, sz): (int, int) = (layers[1] as int, layers[2] as int);
        let a: int = count[1] * count[2];
        lemma_cube(near, count, layers, n - 1);
        lemma_plane(near, count, layers, dx, 2 * layers[1] + 1);
        lemma_offset_fits(count, layers, dx, sy, sz);
        assert((dx - 1) * a == dx * a - a) by (nonlinear_arith);
        assert((-sy) * count[2] == -(sy * count[2])) by (nonlinear_arith);
    }
}

proof fn lemma_line_contains(
    near: spec_fn(u32, u32, u32) -> bool,
    count: [i32; 3],
    layers: [i32; 3],
    dx: int,
    dy: int,
    n: int,
    o: i32,
)
    requires
        grid_ok(count, layers),
        -layers[0] <= dx <= layers[0],
        -layers[1] <= dy <= layers[1],
        0 <= n <= 2 * layers[2] + 1,
    ensures
        line(near, count, layers, dx, dy, n).contains(o) <==> exists|dz: int|
            dz < n - layers[2] && #[trigger] near_offset(near, count, layers, o as int, dx, dy, dz),
    decreases n,
{
    let s: Seq<i32> = line(near, count, layers, dx, dy, n);
    if n > 0 {
        let dz: int = n - 1 - layers[2];
        let rest: Seq<i32> = line(near, count, layers, dx, dy, n - 1);
        lemma_line_contains(near, count, layers, dx, dy, n - 1, o);
        lemma_offset_fits(count, layers, dx, dy, dz);
        if rest.contains(o) {
            let k: int = choose|k: int| 0 <= k < rest.len() && rest[k] == o;
            assert(s[k] == o);
        }
        if reaches(near, dx, dy, dz) {
            assert(s[s.len() - 1] == cell_offset(count, dx, dy, dz));
        }
        if s.contains(o) && !rest.contains(o) {
            let k: int = choose|k: int| 0 <= k < s.len() && s[k] == o;
            if k < rest.len() {
                assert(rest[k] == o);
            }
            assert(near_offset(near, count, layers, o as int, dx, dy, dz));
        }
    }
}

proof fn lemma_contains_append(a: Seq<i32>, b: Seq<i32>, o: i32)
    ensures
        (a + b).contains(o) <==> a.contains(o) || b.contains(o),
{
    let s: Seq<i32> = a + b;
    if a.contains(o) {
        let k: int = choose|k: int| 0 <= k < a.len() && a[k] == o;
        assert(s[k] == o);
    }
    if b.contains(o) {
        let k: int = choose|k: int| 0 <= k < b.len() && b[k] == o;
        assert(s[a.len() + k] == o);
    }
    if s.contains(o) {
        let k: int = choose|k: int| 0 <= k < s.len() && s[k] == o;
        if k < a.len() {
            assert(a[k] == o);
        } else {
            assert(b[k - a.len()] == o);
        }
    }
}

proof fn lemma_plane_contains(
    near: spec_fn(u32, u32, u32) -> bool,
    count: [i32; 3],
    layers: [i32; 3],
    dx: int,
    n: int,
    o: i32,
)
    requires
        grid_ok(count, layers),
        -layers[0] <= dx <= layers[0],
        0 <= n <= 2 * layers[1] + 1,
    ensures
        plane(near, count, layers, dx, n).contains(o) <==> exists|dy: int, dz: int|
            dy < n - layers[1] && #[trigger] near_offset(near, count, layers, o as int, dx, dy, dz),
    decreases n,
{
    if n > 0 {
        let dy: int = n - 1 - layers[1];
        let rest: Seq<i32> = plane(near, count, layers, dx, n - 1);
        let last: Seq<i32> = line(near, count, layers, dx, dy, 2 * layers[2] + 1);
        lemma_plane_contains(near, count, layers, dx, n - 1, o);
        lemma_line_contains(near, count, layers, dx, dy, 2 * layers[2] + 1, o);
        lemma_contains_append(rest, last, o);
        if last.contains(o) {
            let dz: int = choose|dz: int| #[trigger]
                near_offset(near, count, layers, o as int, dx, dy, dz);
            assert(near_offset(near, count, layers, o as int, dx, dy, dz));
        }
    }
}

proof fn lemma_cube_contains(
    near: spec_fn(u32, u32, u32) -> bool,
    count: [i32; 3],
    layers: [i32; 3],
    n: int,
    o: i32,
)
    requires
        grid_ok(count, layers),
        0 <= n <= 2 * layers[0] + 1,
    ensures
        cube(near, count, layers, n).contains(o) <==> exists|dx: int, dy: int, dz: int|
            dx < n - layers[0] && #[trigger] near_offset(near, count, layers, o as int, dx, dy, dz),
    decreases n,
{
    if n > 0 {
        let dx: int = n - 1 - layers[0];
        let rest: Seq<i32> = cube(near, count, layers, n - 1);
        let last: Seq<i32> = plane(near, count, layers, dx, 2 * layers[1] + 1);
        lemma_cube_contains(near, count, layers, n - 1, o);
        lemma_plane_contains(near, count, layers, dx, 2 * layers[1] + 1, o);
        lemma_contains_append(rest, last, o);
        if last.contains(o) {
            let (dy, dz): (int, int) = choose|dy: int, dz: int| #[trigger]
                near_offset(near, count, layers, o as int, dx, dy, dz);
            assert(near_offset(near, count, layers, o as int, dx, dy, dz));
        }
    }
}

/// The stencil holds exactly the offsets of near cells, each once, in increasing order.
pub proof fn stencil_is_exact(
    near: spec_fn(u32, u32, u32) -> bool,
    count: [i32; 3],
    layers: [i32; 3],
    o: i32,
)
    requires
        grid_ok(count, layers),
    ensures
        increasing(stencil_of(near, count, layers)),
        stencil_of(near, count, layers).no_duplicates(),
        stencil_of(near, count, layers).contains(o) <==> exists|dx: int, dy: int, dz: int| #[trigger]
            near_offset(near, count, layers, o as int, dx, dy, dz),
{
    lemma_cube(near, count, layers, 2 * layers[0] + 1);
    lemma_cube_contains(near, count, layers, 2 * layers[0] + 1, o);
}

/// With every offset `full` holds the opposite one.
pub open spec fn mirrored(full: Seq<i32>) -> bool {
    &&& forall|o: i32| #[trigger] full.contains(o) ==> o > i32::MIN
    &&& forall|o: i32, q: i32|
        o + q == 0 && #[trigger] full.contains(o) ==> #[trigger] full.contains(q)
}

/// With every offset the stencil holds the opposite one.
pub proof fn stencil_is_symmetric(
    near: spec_fn(u32, u32, u32) -> bool,
    count: [i32; 3],
    layers: [i32; 3],
)
    requires
        grid_ok(count, layers),
    ensures
        mirrored(stencil_of(near, count, layers)),
{
    let full: Seq<i32> = stencil_of(near, count, layers);
    assert forall|o: i32| #[trigger] full.contains(o) implies o > i32::MIN by {
        lemma_opposite(near, count, layers, o);
    }
    assert forall|o: i32, q: i32|
        o + q == 0 && #[trigger] full.contains(o) implies #[trigger] full.contains(q) by {
        lemma_opposite(near, count, layers, o);
    }
}

proof fn lemma_opposite(
    near: spec_fn(u32, u32, u32) -> bool,
    count: [i32; 3],
    layers: [i32; 3],
    o: i32,
)
    requires
        grid_ok(count, layers),
        stencil_of(near, count, layers).contains(o),
    ensures
        o > i32::MIN,
        stencil_of(near, count, layers).contains((-o) as i32),
{
    stencil_is_exact(near, count, layers, o);
    let (dx, dy, dz): (int, int, int) = choose|dx: int, dy: int, dz: int| #[trigger]
        near_offset(near, count, layers, o as int, dx, dy, dz);
    lemma_offset_fits(count, layers, dx, dy, dz);
    let a: int = count[1] * count[2];
    let b: int = count[2] as int;
    assert((-dx) * a + (-dy) * b + (-dz) == -(dx * a + dy * b + dz)) by (nonlinear_arith);
    assert(near_offset(near, count, layers, -o as int, -dx, -dy, -dz));
    stencil_is_exact(near, count, layers, (-o) as i32);
}

/// The forward stencil is the positive half of the stencil.
pub proof fn forward_is_positive_half(s: Seq<i32>, o: i32)
    requires
        increasing(s),
    ensures
        increasing(positive(s)),
        positive(s).no_duplicates(),
        positive(s).contains(o) <==> s.contains(o) && o > 0,
    decreases s.len(),
{
    if s.len() > 0 {
        let rest: Seq<i32> = s.drop_last();
        let half: Seq<i32> = positive(rest);
        forward_is_positive_half(rest, o);
        assert(s =~= rest + seq![s.last()]);
        lemma_contains_append(rest, seq![s.last()], o);
        assert(seq![s.last()].contains(o) <==> o == s.last()) by {
            assert(seq![s.last()][0] == s.last());
        }
        if s.last() > 0 {
            assert(positive(s) =~= half + seq![s.last()]);
            lemma_contains_append(half, seq![s.last()], o);
            assert forall|j: int, k: int| 0 <= j < k < positive(s).len() implies positive(s)[j]
                < positive(s)[k] by {
                if k == half.len() {
                    assert(half.contains(half[j]));
                    forward_is_positive_half(rest, half[j]);
                    let m: int = choose|m: int| 0 <= m < rest.len() && rest[m] == half[j];
                    assert(s[m] == half[j] && s[s.len() - 1] == s.last());
                }
            }
        }
    }
}

/// From a cell that is at least `layers` away from the grid's faces every
/// offset of the stencil leads to a cell of the grid.
pub proof fn stencil_stays_in_grid(
    near: spec_fn(u32, u32, u32) -> bool,
    count: [i32; 3],
    layers: [i32; 3],
    cx: int,
    cy: int,
    cz: int,
    o: i32,
)
    requires
        grid_ok(count, layers),
        layers[0] <= cx < count[0] - layers[0],
        layers[1] <= cy < count[1] - layers[1],
        layers[2] <= cz < count[2] - layers[2],
        stencil_of(near, count, layers).contains(o),
    ensures
        0 <= cell_offset(count, cx, cy, cz) + o < count[0] * (count[1] * count[2]),
{
    stencil_is_exact(near, count, layers, o);
    let (dx, dy, dz): (int, int, int) = choose|dx: int, dy: int, dz: int| #[trigger]
        near_offset(near, count, layers, o as int, dx, dy, dz);
    let (nx, ny, nz): (int, int, int) = (count[0] as int, count[1] as int, count[2] as int);
    let a: int = ny * nz;
    let (x, y, z): (int, int, int) = (cx + dx, cy + dy, cz + dz);
    assert(cx * a + cy * nz + cz + (dx * a + dy * nz + dz) == x * a + y * nz + z) by (nonlinear_arith)
        requires
            x == cx + dx,
            y == cy + dy,
            z == cz + dz,
    ;
    assert(0 <= y * nz && y * nz + nz <= a) by (nonlinear_arith)
        requires
            0 <= y < ny,
            nz >= 1,
            a == ny * nz,
    ;
    assert(0 <= x * a && x * a + a <= nx * a) by (nonlinear_arith)
        requires
            0 <= x < nx,
            a >= 0,
    ;
}

} // verus!
