//! Neighbour lists in compressed-row form, built cell by cell.

use crate::bins::{
    lemma_members_contains, lemma_members_range, lemma_members_split, lemma_start_grows,
    lemma_start_total, members, start_of, Bins,
};
use crate::scalar::{
    difference, fused, is_arithmetic, minus, mul_add, plus, product, sum, times, Op, Scalar, Vec3,
};
use vstd::prelude::*;

verus! {

/// The elements of `s` that pass `ok`, in order.
pub open spec fn keep(s: Seq<u32>, ok: spec_fn(u32) -> bool) -> Seq<u32>
    decreases s.len(),
{
    if s.len() == 0 {
        Seq::empty()
    } else if ok(s.last()) {
        keep(s.drop_last(), ok).push(s.last())
    } else {
        keep(s.drop_last(), ok)
    }
}

/// The other atoms that pass the pair test with atom `i`.
pub open spec fn close_to(p: spec_fn(int, int) -> bool, i: int) -> spec_fn(u32) -> bool {
    |j: u32| j != i && p(i, j as int)
}

/// The squared distance between two atoms.
pub open spec fn distance_squared<F: Fn(Op, Scalar, Scalar, Scalar) -> Scalar>(
    ar: F,
    a: Vec3,
    b: Vec3,
) -> Scalar {
    let dx = difference(ar, b[0], a[0]);
    let dy = difference(ar, b[1], a[1]);
    let dz = difference(ar, b[2], a[2]);
    fused(ar, dx, dx, fused(ar, dy, dy, product(ar, dz, dz)))
}

/// Two atoms are within their cutoff: the common one, where all atoms have the
/// same radius, else the sum of their radii times the skin fraction.
pub open spec fn within_reach<F: Fn(Op, Scalar, Scalar, Scalar) -> Scalar>(
    ar: F,
    pos: Seq<Vec3>,
    radius: Seq<Scalar>,
    uniform: Option<Scalar>,
    skin_sq: Scalar,
) -> spec_fn(int, int) -> bool {
    |i: int, j: int|
        {
            let reach = match uniform {
                Some(cutoff_sq) => cutoff_sq,
                None => {
                    let s = sum(ar, radius[i], radius[j]);
                    product(ar, product(ar, s, s), skin_sq)
                },
            };
            distance_squared(ar, pos[i], pos[j]).below(reach)
        }
}

/// Whether two atoms are within their cutoff.
fn pair_within<F: Fn(Op, Scalar, Scalar, Scalar) -> Scalar>(
    pos: &Vec<Vec3>,
    radius: &Vec<Scalar>,
    uniform: Option<Scalar>,
    skin_sq: Scalar,
    i: usize,
    j: usize,
    ar: &F,
) -> (r: bool)
    requires
        is_arithmetic(*ar),
        i < pos@.len(),
        j < pos@.len(),
        radius@.len() == pos@.len(),
    ensures
        r == within_reach(*ar, pos@, radius@, uniform, skin_sq)(i as int, j as int),
{
    let pi: Vec3 = pos[i];
    let pj: Vec3 = pos[j];
    let dx: Scalar = minus(ar, pj[0], pi[0]);
    let dy: Scalar = minus(ar, pj[1], pi[1]);
    let dz: Scalar = minus(ar, pj[2], pi[2]);
    let r2: Scalar = mul_add(ar, dx, dx, mul_add(ar, dy, dy, times(ar, dz, dz)));
    match uniform {
        Some(cutoff_sq) => r2.lt(cutoff_sq),
        None => {
            let s: Scalar = plus(ar, radius[i], radius[j]);
            r2.lt(times(ar, times(ar, s, s), skin_sq))
        },
    }
}

/// The atoms of the cells that the first `k` offsets reach from cell `c`. A full
/// list leaves out the offset zero: the own cell is scanned apart.
pub open spec fn around(cells: Seq<u32>, stencil: Seq<i32>, newton: bool, c: int, k: int) -> Seq<u32>
    decreases k,
{
    if k <= 0 {
        Seq::empty()
    } else if !newton && stencil[k - 1] == 0 {
        around(cells, stencil, newton, c, k - 1)
    } else {
        around(cells, stencil, newton, c, k - 1) + members(
            cells,
            c + stencil[k - 1],
            0,
            cells.len() as int,
        )
    }
}

/// The atoms of atom `i`'s own cell that are compared with it: in a half list
/// those behind it, in a full list all.
pub open spec fn own_cell(cells: Seq<u32>, has_self: bool, newton: bool, i: int) -> Seq<u32> {
    if !has_self {
        Seq::empty()
    } else if newton {
        members(cells, cells[i] as int, i + 1, cells.len() as int)
    } else {
        members(cells, cells[i] as int, 0, cells.len() as int)
    }
}

/// What is compared with atom `i`, in order.
pub open spec fn candidates(
    cells: Seq<u32>,
    stencil: Seq<i32>,
    has_self: bool,
    newton: bool,
    i: int,
) -> Seq<u32> {
    own_cell(cells, has_self, newton, i) + around(
        cells,
        stencil,
        newton,
        cells[i] as int,
        stencil.len() as int,
    )
}

/// The neighbours of atom `i`.
pub open spec fn row(
    cells: Seq<u32>,
    stencil: Seq<i32>,
    has_self: bool,
    newton: bool,
    p: spec_fn(int, int) -> bool,
    i: int,
) -> Seq<u32> {
    keep(candidates(cells, stencil, has_self, newton, i), close_to(p, i))
}

/// The neighbours of the atoms below `n`, one row after the other.
pub open spec fn rows(
    cells: Seq<u32>,
    stencil: Seq<i32>,
    has_self: bool,
    newton: bool,
    p: spec_fn(int, int) -> bool,
    n: int,
) -> Seq<u32>
    decreases n,
{
    if n <= 0 {
        Seq::empty()
    } else {
        rows(cells, stencil, has_self, newton, p, n - 1) + row(
            cells,
            stencil,
            has_self,
            newton,
            p,
            n - 1,
        )
    }
}

/// The lowest 32 bits of a count.
pub open spec fn low32(n: int) -> u32 {
    (n % 0x1_0000_0000) as u32
}

/// Every cell that the stencil reaches from a local atom lies in the grid.
pub open spec fn stencil_fits(
    cells: Seq<u32>,
    stencil: Seq<i32>,
    newton: bool,
    nlocal: int,
    total_cells: int,
) -> bool {
    forall|i: int, k: int|
        0 <= i < nlocal && 0 <= k < stencil.len() && (newton || stencil[k] != 0) ==> 0 <= (
        #[trigger] cells[i]) + (#[trigger] stencil[k]) < total_cells
}

proof fn lemma_keep_append(a: Seq<u32>, b: Seq<u32>, ok: spec_fn(u32) -> bool)
    ensures
        keep(a + b, ok) == keep(a, ok) + keep(b, ok),
    decreases b.len(),
{
    if b.len() == 0 {
        assert(a + b =~= a);
        assert(keep(a, ok) + keep(b, ok) =~= keep(a, ok));
    } else {
        assert((a + b).drop_last() =~= a + b.drop_last());
        lemma_keep_append(a, b.drop_last(), ok);
        assert(keep(a + b, ok) =~= keep(a, ok) + keep(b, ok));
    }
}

proof fn lemma_keep_contains(s: Seq<u32>, ok: spec_fn(u32) -> bool, x: u32)
    ensures
        keep(s, ok).contains(x) <==> s.contains(x) && ok(x),
    decreases s.len(),
{
    if s.len() > 0 {
        let rest: Seq<u32> = s.drop_last();
        lemma_keep_contains(rest, ok, x);
        let kept: Seq<u32> = keep(rest, ok);
        assert(s.contains(x) <==> rest.contains(x) || x == s.last()) by {
            if s.contains(x) {
                let k: int = choose|k: int| 0 <= k < s.len() && s[k] == x;
                if k < s.len() - 1 {
                    assert(rest[k] == x);
                }
            }
            if rest.contains(x) {
                let k: int = choose|k: int| 0 <= k < rest.len() && rest[k] == x;
                assert(s[k] == x);
            }
        }
        let with: Seq<u32> = kept.push(s.last());
        assert(with.contains(x) <==> kept.contains(x) || x == s.last()) by {
            if kept.contains(x) {
                let k: int = choose|k: int| 0 <= k < kept.len() && kept[k] == x;
                assert(with[k] == x);
            }
            assert(with[with.len() - 1] == s.last());
        }
    }
}

proof fn lemma_keep_distinct(s: Seq<u32>, ok: spec_fn(u32) -> bool)
    requires
        s.no_duplicates(),
    ensures
        keep(s, ok).no_duplicates(),
    decreases s.len(),
{
    if s.len() > 0 {
        let rest: Seq<u32> = s.drop_last();
        lemma_keep_distinct(rest, ok);
        lemma_keep_contains(rest, ok, s.last());
        assert(!rest.contains(s.last()));
    }
}

/// Appends the atoms in slots `from..to` that are close to atom `i`.
fn scan<F: Fn(Op, Scalar, Scalar, Scalar) -> Scalar>(
    sorted: &Vec<u32>,
    from: usize,
    to: usize,
    i: usize,
    pos: &Vec<Vec3>,
    radius: &Vec<Scalar>,
    uniform: Option<Scalar>,
    skin_sq: Scalar,
    out: &mut Vec<u32>,
    ar: &F,
)
    requires
        is_arithmetic(*ar),
        from <= to <= sorted@.len(),
        i < pos@.len(),
        radius@.len() == pos@.len(),
        forall|m: int| from <= m < to ==> #[trigger] sorted@[m] < pos@.len(),
    ensures
        final(out)@ == old(out)@ + keep(
            sorted@.subrange(from as int, to as int),
            close_to(within_reach(*ar, pos@, radius@, uniform, skin_sq), i as int),
        ),
{
    let ghost before: Seq<u32> = out@;
    let ghost ok = close_to(within_reach(*ar, pos@, radius@, uniform, skin_sq), i as int);
    let mut m: usize = from;
    proof {
        assert(sorted@.subrange(from as int, from as int) =~= Seq::empty());
        assert(before + keep(Seq::empty(), ok) =~= before);
    }
    while m < to
        invariant
            is_arithmetic(*ar),
            from <= m <= to <= sorted@.len(),
            i < pos@.len(),
            radius@.len() == pos@.len(),
            forall|k: int| from <= k < to ==> #[trigger] sorted@[k] < pos@.len(),
            ok == close_to(within_reach(*ar, pos@, radius@, uniform, skin_sq), i as int),
            out@ == before + keep(sorted@.subrange(from as int, m as int), ok),
        decreases to - m,
    {
        let j: u32 = sorted[m];
        let ghost done: Seq<u32> = sorted@.subrange(from as int, m as int);
        proof {
            let next: Seq<u32> = sorted@.subrange(from as int, m + 1);
            assert(next.drop_last() =~= done);
            assert(next.last() == j);
        }
        if j as usize != i && pair_within(pos, radius, uniform, skin_sq, i, j as usize, ar) {
            assert(ok(j));
            out.push(j);
            assert(out@ =~= before + keep(done, ok).push(j));
        } else {
            assert(!ok(j));
        }
        m = m + 1;
    }
}

/// A neighbour list in compressed-row form.
pub struct Csr {
    pub offsets: Vec<u32>,
    pub indices: Vec<u32>,
}

proof fn lemma_slots_are_members(bins: Bins, cells: Seq<u32>, total_cells: int, c: int)
    requires
        bins.sorts(cells, total_cells),
        cells.len() <= u32::MAX,
        0 <= c < total_cells,
        forall|i: int| 0 <= i < cells.len() ==> #[trigger] cells[i] < total_cells,
    ensures
        0 <= start_of(cells, c) <= start_of(cells, c + 1) <= cells.len(),
        bins.sorted@.subrange(start_of(cells, c), start_of(cells, c + 1)) == members(
            cells,
            c,
            0,
            cells.len() as int,
        ),
        forall|m: int|
            start_of(cells, c) <= m < start_of(cells, c + 1) ==> #[trigger] bins.sorted@[m]
                < cells.len(),
{
    let all: Seq<u32> = members(cells, c, 0, cells.len() as int);
    lemma_start_grows(cells, c, c + 1);
    lemma_start_grows(cells, c + 1, total_cells);
    lemma_start_total(cells, total_cells, cells.len() as int);
    let part: Seq<u32> = bins.sorted@.subrange(start_of(cells, c), start_of(cells, c + 1));
    assert(part.len() == all.len());
    assert forall|k: int| 0 <= k < all.len() implies part[k] == all[k] by {
        assert(bins.sorted@[start_of(cells, c) + k] == all[k]);
    }
    assert(part =~= all);
    assert forall|m: int|
        start_of(cells, c) <= m < start_of(cells, c + 1) implies #[trigger] bins.sorted@[m]
        < cells.len() by {
        assert(part[m - start_of(cells, c)] == bins.sorted@[m]);
        lemma_members_range(cells, c, 0, cells.len() as int, m - start_of(cells, c));
    }
}

/// The slots behind an atom's own hold exactly the later atoms of its cell.
proof fn lemma_slots_behind(bins: Bins, cells: Seq<u32>, total_cells: int, i: int)
    requires
        bins.sorts(cells, total_cells),
        cells.len() <= u32::MAX,
        0 <= i < cells.len(),
        forall|k: int| 0 <= k < cells.len() ==> #[trigger] cells[k] < total_cells,
    ensures
        bins.slot@[i] < start_of(cells, cells[i] + 1) <= cells.len(),
        bins.sorted@.subrange(bins.slot@[i] + 1, start_of(cells, cells[i] + 1)) == members(
            cells,
            cells[i] as int,
            i + 1,
            cells.len() as int,
        ),
{
    let c: int = cells[i] as int;
    let n: int = cells.len() as int;
    lemma_slots_are_members(bins, cells, total_cells, c);
    lemma_members_split(cells, c, 0, i, n);
    lemma_members_split(cells, c, 0, i + 1, n);
    let all: Seq<u32> = members(cells, c, 0, n);
    let part: Seq<u32> = bins.sorted@.subrange(start_of(cells, c), start_of(cells, c + 1));
    let behind: Seq<u32> = bins.sorted@.subrange(bins.slot@[i] + 1, start_of(cells, c + 1));
    assert(members(cells, c, 0, i + 1) == members(cells, c, 0, i).push(i as u32));
    let lead: int = members(cells, c, 0, i + 1).len() as int;
    assert(behind =~= part.subrange(lead, part.len() as int));
    assert(behind =~= members(cells, c, i + 1, n));
}

/// Lists the neighbours of each local atom.
///
/// In a half list (`newton`) an atom is compared with the atoms behind it in its
/// own cell and with all atoms of the stencil's cells; in a full list with every
/// other atom of its own cell and of the stencil's cells.
pub fn list_neighbors<F: Fn(Op, Scalar, Scalar, Scalar) -> Scalar>(
    cells: &Vec<u32>,
    bins: &Bins,
    total_cells: usize,
    nlocal: usize,
    stencil: &Vec<i32>,
    has_self: bool,
    newton: bool,
    pos: &Vec<Vec3>,
    radius: &Vec<Scalar>,
    uniform: Option<Scalar>,
    skin_sq: Scalar,
    ar: &F,
) -> (r: Csr)
    requires
        is_arithmetic(*ar),
        pos@.len() == cells@.len(),
        radius@.len() == cells@.len(),
        cells@.len() <= u32::MAX,
        total_cells <= i32::MAX,
        nlocal <= cells@.len(),
        forall|i: int| 0 <= i < cells@.len() ==> #[trigger] cells@[i] < total_cells,
        bins.sorts(cells@, total_cells as int),
        stencil_fits(cells@, stencil@, newton, nlocal as int, total_cells as int),
    ensures
        r.indices@ == rows(cells@, stencil@, has_self, newton, within_reach(*ar, pos@, radius@, uniform, skin_sq), nlocal as int),
        r.offsets@.len() == nlocal + 1,
        forall|i: int|
            0 <= i <= nlocal ==> #[trigger] r.offsets@[i] == low32(
                rows(cells@, stencil@, has_self, newton, within_reach(*ar, pos@, radius@, uniform, skin_sq), i).len() as int,
            ),
{
    let ghost p = within_reach(*ar, pos@, radius@, uniform, skin_sq);
    let mut offsets: Vec<u32> = Vec::new();
    let mut indices: Vec<u32> = Vec::new();
    let mut i: usize = 0;
    while i < nlocal
        invariant
            is_arithmetic(*ar),
            p == within_reach(*ar, pos@, radius@, uniform, skin_sq),
            pos@.len() == cells@.len(),
            radius@.len() == cells@.len(),
            cells@.len() <= u32::MAX,
            total_cells <= i32::MAX,
            i <= nlocal <= cells@.len(),
            forall|k: int| 0 <= k < cells@.len() ==> #[trigger] cells@[k] < total_cells,
            bins.sorts(cells@, total_cells as int),
            stencil_fits(cells@, stencil@, newton, nlocal as int, total_cells as int),
            indices@ == rows(cells@, stencil@, has_self, newton, p, i as int),
            offsets@.len() == i,
            forall|k: int|
                0 <= k < i ==> #[trigger] offsets@[k] == low32(
                    rows(cells@, stencil@, has_self, newton, p, k).len() as int,
                ),
        decreases nlocal - i,
    {
        let ghost before: Seq<u32> = indices@;
        let ghost ok = close_to(p, i as int);
        offsets.push((indices.len() as u64 % 0x1_0000_0000) as u32);
        let my_cell: usize = cells[i] as usize;
        let ghost own: Seq<u32> = own_cell(cells@, has_self, newton, i as int);
        proof {
            lemma_slots_are_members(*bins, cells@, total_cells as int, my_cell as int);
            lemma_slots_behind(*bins, cells@, total_cells as int, i as int);
            assert(bins.start@[my_cell as int] == start_of(cells@, my_cell as int));
            assert(bins.start@[my_cell + 1] == start_of(cells@, my_cell + 1));
            assert(before + keep(Seq::empty(), ok) =~= before);
        }
        if has_self {
            let end: usize = bins.start[my_cell + 1] as usize;
            let from: usize = if newton {
                bins.slot[i] as usize + 1
            } else {
                bins.start[my_cell] as usize
            };
            scan(&bins.sorted, from, end, i, pos, radius, uniform, skin_sq, &mut indices, ar);
        }
        assert(indices@ == before + keep(own, ok));
        let mut k: usize = 0;
        proof {
            assert(own + around(cells@, stencil@, newton, my_cell as int, 0) =~= own);
        }
        while k < stencil.len()
            invariant
                is_arithmetic(*ar),
                p == within_reach(*ar, pos@, radius@, uniform, skin_sq),
                pos@.len() == cells@.len(),
                radius@.len() == cells@.len(),
                cells@.len() <= u32::MAX,
                total_cells <= i32::MAX,
                i < nlocal <= cells@.len(),
                my_cell == cells@[i as int],
                my_cell < total_cells,
                forall|m: int| 0 <= m < cells@.len() ==> #[trigger] cells@[m] < total_cells,
                bins.sorts(cells@, total_cells as int),
                stencil_fits(cells@, stencil@, newton, nlocal as int, total_cells as int),
                k <= stencil@.len(),
                ok == close_to(p, i as int),
                indices@ == before + keep(
                    own + around(cells@, stencil@, newton, my_cell as int, k as int),
                    ok,
                ),
            decreases stencil.len() - k,
        {
            let offset: i32 = stencil[k];
            let ghost seen: Seq<u32> = own + around(
                cells@,
                stencil@,
                newton,
                my_cell as int,
                k as int,
            );
            if newton || offset != 0 {
                assert(0 <= cells@[i as int] + stencil@[k as int] < total_cells);
                let c: usize = (my_cell as i32 + offset) as usize;
                proof {
                    lemma_slots_are_members(*bins, cells@, total_cells as int, c as int);
                    assert(bins.start@[c as int] == start_of(cells@, c as int));
                    assert(bins.start@[c + 1] == start_of(cells@, c + 1));
                    let more: Seq<u32> = members(cells@, c as int, 0, cells@.len() as int);
                    lemma_keep_append(seen, more, ok);
                    assert(own + around(cells@, stencil@, newton, my_cell as int, k + 1) =~= seen
                        + more);
                }
                let start: usize = bins.start[c] as usize;
                let end: usize = bins.start[c + 1] as usize;
                let ghost mid: Seq<u32> = indices@;
                scan(&bins.sorted, start, end, i, pos, radius, uniform, skin_sq, &mut indices, ar);
                proof {
                    let more: Seq<u32> = members(cells@, c as int, 0, cells@.len() as int);
                    assert(indices@ =~= before + (keep(seen, ok) + keep(more, ok)));
                }
            }
            k = k + 1;
        }
        i = i + 1;
    }
    offsets.push((indices.len() as u64 % 0x1_0000_0000) as u32);
    Csr { offsets, indices }
}

/// Cell `c` is one of those that the first `k` offsets reach from `from`.
pub open spec fn reached(stencil: Seq<i32>, newton: bool, from: int, c: int, k: int) -> bool {
    exists|m: int|
        0 <= m < k && #[trigger] stencil[m] == c - from && (newton || stencil[m] != 0)
}

proof fn lemma_around_contains(
    cells: Seq<u32>,
    stencil: Seq<i32>,
    newton: bool,
    c: int,
    k: int,
    x: u32,
)
    requires
        cells.len() <= u32::MAX,
        0 <= k <= stencil.len(),
        stencil.no_duplicates(),
    ensures
        around(cells, stencil, newton, c, k).contains(x) <==> x < cells.len() && reached(
            stencil,
            newton,
            c,
            cells[x as int] as int,
            k,
        ),
        around(cells, stencil, newton, c, k).no_duplicates(),
    decreases k,
{
    if k > 0 {
        lemma_around_contains(cells, stencil, newton, c, k - 1, x);
        let rest: Seq<u32> = around(cells, stencil, newton, c, k - 1);
        let o: int = stencil[k - 1] as int;
        if newton || o != 0 {
            let n: int = cells.len() as int;
            let more: Seq<u32> = members(cells, c + o, 0, n);
            lemma_members_contains(cells, c + o, 0, n, x);
            lemma_contains_append(rest, more, x);
            if x < n {
                let to: int = cells[x as int] as int;
                if reached(stencil, newton, c, to, k - 1) {
                    let m: int = choose|m: int|
                        0 <= m < k - 1 && #[trigger] stencil[m] == to - c && (newton || stencil[m]
                            != 0);
                    assert(stencil[m] == to - c);
                }
            }
            assert((rest + more).no_duplicates()) by {
                assert forall|a: int, b: int|
                    0 <= a < rest.len() && 0 <= b < more.len() implies rest[a] != more[b] by {
                    let y: u32 = more[b];
                    lemma_members_range(cells, c + o, 0, n, b);
                    lemma_around_contains(cells, stencil, newton, c, k - 1, y);
                    if rest[a] == y {
                        assert(rest.contains(y));
                        let m: int = choose|m: int|
                            0 <= m < k - 1 && #[trigger] stencil[m] == cells[y as int] - c && (newton
                                || stencil[m] != 0);
                        assert(stencil[m] == stencil[k - 1]);
                    }
                }
            }
        } else if x < cells.len() && reached(stencil, newton, c, cells[x as int] as int, k) {
            let m: int = choose|m: int|
                0 <= m < k && #[trigger] stencil[m] == cells[x as int] - c && (newton || stencil[m]
                    != 0);
            assert(m < k - 1 && stencil[m] == cells[x as int] - c);
        }
    }
}

proof fn lemma_contains_append(a: Seq<u32>, b: Seq<u32>, o: u32)
    ensures
        (a + b).contains(o) <==> a.contains(o) || b.contains(o),
{
    let s: Seq<u32> = a + b;
    if a.contains(o) {
        let k: int = choose|k: int| 0 <= k < a.len() && a[k] == o;
        assert(s[k] == o);
    }
    if b.contains(o) {
        let k: int = choose|k: int| 0 <= k < b.len() && b[k] == o;
        assert(s[a.len() + k] == o);
    }
    if s.contains(o) {
        let k: int = choose|k: int| 0 <= k < s.len() && s[k] == o;
        if k < a.len() {
            assert(a[k] == o);
        } else {
            assert(b[k - a.len()] == o);
        }
    }
}

/// A row names each neighbour once: the close atoms of the reached cells and of
/// the own cell, there in a half list only those behind the atom.
pub proof fn row_is_exact(
    cells: Seq<u32>,
    stencil: Seq<i32>,
    has_self: bool,
    newton: bool,
    p: spec_fn(int, int) -> bool,
    i: int,
    j: u32,
)
    requires
        0 <= i < cells.len() <= u32::MAX,
        stencil.no_duplicates(),
        newton ==> forall|k: int| 0 <= k < stencil.len() ==> #[trigger] stencil[k] > 0,
    ensures
        row(cells, stencil, has_self, newton, p, i).no_duplicates(),
        row(cells, stencil, has_self, newton, p, i).contains(j) <==> {
            &&& j < cells.len()
            &&& j != i
            &&& p(i as int, j as int)
            &&& (has_self && cells[j as int] == cells[i] && (newton ==> j > i)) || reached(
                stencil,
                newton,
                cells[i] as int,
                cells[j as int] as int,
                stencil.len() as int,
            )
        },
{
    let c: int = cells[i] as int;
    let n: int = cells.len() as int;
    let own: Seq<u32> = own_cell(cells, has_self, newton, i);
    let rest: Seq<u32> = around(cells, stencil, newton, c, stencil.len() as int);
    let lo: int = if newton {
        i + 1
    } else {
        0
    };
    lemma_members_contains(cells, c, lo, n, j);
    lemma_around_contains(cells, stencil, newton, c, stencil.len() as int, j);
    lemma_contains_append(own, rest, j);
    assert((own + rest).no_duplicates()) by {
        assert forall|a: int, b: int| 0 <= a < own.len() && 0 <= b < rest.len() implies own[a]
            != rest[b] by {
            lemma_members_range(cells, c, lo, n, a);
            if own[a] == rest[b] {
                let y: u32 = own[a];
                lemma_around_contains(cells, stencil, newton, c, stencil.len() as int, y);
                assert(rest.contains(y));
                let m: int = choose|m: int|
                    0 <= m < stencil.len() && #[trigger] stencil[m] == cells[y as int] - c && (newton
                        || stencil[m] != 0);
                assert(stencil[m] == 0);
            }
        }
    }
    lemma_keep_contains(own + rest, close_to(p, i), j);
    lemma_keep_distinct(own + rest, close_to(p, i));
}

/// A half list finds every pair of close local atoms in neighbouring cells
/// once: either the first lists the second or the second the first.
pub proof fn half_list_finds_each_pair_once(
    cells: Seq<u32>,
    full: Seq<i32>,
    p: spec_fn(int, int) -> bool,
    i: u32,
    j: u32,
)
    requires
        i < cells.len() <= u32::MAX,
        j < cells.len(),
        i != j,
        crate::stencil::increasing(full),
        crate::stencil::mirrored(full),
        exists|o: i32| #[trigger] full.contains(o) && o == cells[j as int] - cells[i as int],
        p(i as int, j as int) == p(j as int, i as int),
    ensures
        ({
            let stencil = crate::stencil::positive(full);
            let has_self = full.contains(0);
            let ri = row(cells, stencil, has_self, true, p, i as int);
            let rj = row(cells, stencil, has_self, true, p, j as int);
            &&& ri.no_duplicates()
            &&& rj.no_duplicates()
            &&& p(i as int, j as int) ==> ri.contains(j) != rj.contains(i)
            &&& !p(i as int, j as int) ==> !ri.contains(j) && !rj.contains(i)
        }),
{
    let stencil: Seq<i32> = crate::stencil::positive(full);
    let has_self: bool = full.contains(0);
    let o: i32 = choose|o: i32| #[trigger]
        full.contains(o) && o == cells[j as int] - cells[i as int];
    assert(full.contains((-o) as i32));
    assert forall|k: int| 0 <= k < stencil.len() implies #[trigger] stencil[k] > 0 by {
        assert(stencil.contains(stencil[k]));
        crate::stencil::forward_is_positive_half(full, stencil[k]);
    }
    crate::stencil::forward_is_positive_half(full, o);
    crate::stencil::forward_is_positive_half(full, (-o) as i32);
    row_is_exact(cells, stencil, has_self, true, p, i as int, j);
    row_is_exact(cells, stencil, has_self, true, p, j as int, i);
    let (ci, cj): (int, int) = (cells[i as int] as int, cells[j as int] as int);
    let n: int = stencil.len() as int;
    if o > 0 {
        let k: int = choose|k: int| 0 <= k < n && stencil[k] == o;
        assert(stencil[k] == cj - ci);
        assert(reached(stencil, true, ci, cj, n));
        assert(!reached(stencil, true, cj, ci, n));
    } else if o < 0 {
        let k: int = choose|k: int| 0 <= k < n && stencil[k] == -o;
        assert(stencil[k] == ci - cj);
        assert(reached(stencil, true, cj, ci, n));
        assert(!reached(stencil, true, ci, cj, n));
    } else {
        assert(!reached(stencil, true, cj, ci, n));
        assert(!reached(stencil, true, ci, cj, n));
    }
}

/// A full list is symmetric: of two local atoms either both list each other, once, or neither.
pub proof fn full_list_is_symmetric(
    cells: Seq<u32>,
    full: Seq<i32>,
    p: spec_fn(int, int) -> bool,
    i: u32,
    j: u32,
)
    requires
        i < cells.len() <= u32::MAX,
        j < cells.len(),
        full.no_duplicates(),
        crate::stencil::mirrored(full),
        p(i as int, j as int) == p(j as int, i as int),
    ensures
        ({
            let has_self = full.contains(0);
            let ri = row(cells, full, has_self, false, p, i as int);
            let rj = row(cells, full, has_self, false, p, j as int);
            &&& ri.no_duplicates()
            &&& ri.contains(j) == rj.contains(i)
            &&& !ri.contains(i)
        }),
{
    let has_self: bool = full.contains(0);
    row_is_exact(cells, full, has_self, false, p, i as int, j);
    row_is_exact(cells, full, has_self, false, p, j as int, i);
    row_is_exact(cells, full, has_self, false, p, i as int, i);
    let n: int = full.len() as int;
    let (ci, cj): (int, int) = (cells[i as int] as int, cells[j as int] as int);
    if reached(full, false, ci, cj, n) {
        lemma_reached_back(full, ci, cj);
    }
    if reached(full, false, cj, ci, n) {
        lemma_reached_back(full, cj, ci);
    }
}

proof fn lemma_reached_back(full: Seq<i32>, a: int, b: int)
    requires
        crate::stencil::mirrored(full),
        reached(full, false, a, b, full.len() as int),
    ensures
        reached(full, false, b, a, full.len() as int),
{
    let m: int = choose|m: int|
        0 <= m < full.len() && #[trigger] full[m] == b - a && full[m] != 0;
    assert(full.contains(full[m]));
    assert(full.contains((-full[m]) as i32));
    let k: int = choose|k: int| 0 <= k < full.len() && full[k] == (-full[m]) as i32;
    assert(full[k] == a - b);
}

/// The pairs of atom `i` with the entries `lo..hi`.
pub open spec fn row_pairs(indices: Seq<u32>, i: int, lo: int, hi: int) -> Seq<(usize, usize)> {
    Seq::new(
        if lo < hi {
            (hi - lo) as nat
        } else {
            0
        },
        |k: int| (i as usize, indices[lo + k] as usize),
    )
}

/// The pairs that the rows `from..n` name, row by row.
pub open spec fn pairs_from(offsets: Seq<u32>, indices: Seq<u32>, from: int, n: int) -> Seq<
    (usize, usize),
>
    decreases n - from,
{
    if from >= n {
        Seq::empty()
    } else {
        row_pairs(indices, from, offsets[from] as int, offsets[from + 1] as int) + pairs_from(
            offsets,
            indices,
            from + 1,
            n,
        )
    }
}

/// Walks over the pairs of a compressed-row list.
pub struct PairIter<'a> {
    pub offsets: &'a Vec<u32>,
    pub indices: &'a Vec<u32>,
    pub nlocal: usize,
    pub i: usize,
    pub k: usize,
    pub end: usize,
}

/// The first `n` rows of a list can be walked over.
pub open spec fn walkable(offsets: Seq<u32>, indices: Seq<u32>, n: int) -> bool {
    &&& n > 0 ==> n < offsets.len()
    &&& forall|i: int| 0 < i <= n ==> #[trigger] offsets[i] <= indices.len()
}

impl<'a> PairIter<'a> {
    pub open spec fn wf(&self) -> bool {
        &&& walkable(self.offsets@, self.indices@, self.nlocal as int)
        &&& self.end <= self.indices@.len()
        &&& self.nlocal == 0 ==> self.k >= self.end
        &&& self.i <= self.nlocal
    }

    /// The pairs that are still to come.
    pub open spec fn remaining(&self) -> Seq<(usize, usize)> {
        row_pairs(self.indices@, self.i as int, self.k as int, self.end as int) + pairs_from(
            self.offsets@,
            self.indices@,
            self.i + 1,
            self.nlocal as int,
        )
    }

    /// Before the first pair.
    pub fn new(offsets: &'a Vec<u32>, indices: &'a Vec<u32>, nlocal: usize) -> (r: PairIter<'a>)
        requires
            walkable(offsets@, indices@, nlocal as int),
        ensures
            r.wf(),
            r.remaining() == pairs_from(offsets@, indices@, 0, nlocal as int),
    {
        let (k, end): (usize, usize) = if nlocal > 0 {
            (offsets[0] as usize, offsets[1] as usize)
        } else {
            (0, 0)
        };
        let r: PairIter<'a> = PairIter { offsets, indices, nlocal, i: 0, k, end };
        assert(r.remaining() =~= pairs_from(offsets@, indices@, 0, nlocal as int));
        r
    }

    /// The next pair.
    pub fn next(&mut self) -> (r: Option<(usize, usize)>)
        requires
            old(self).wf(),
        ensures
            final(self).wf(),
            match r {
                Some(p) => {
                    &&& old(self).remaining().len() > 0
                    &&& p == old(self).remaining()[0]
                    &&& final(self).remaining() == old(self).remaining().skip(1)
                },
                None => old(self).remaining().len() == 0 && final(self).remaining().len() == 0,
            },
    {
        let ghost all: Seq<(usize, usize)> = self.remaining();
        while self.k >= self.end
            invariant
                self.wf(),
                self.remaining() == all,
                all == old(self).remaining(),
            decreases self.nlocal - self.i,
        {
            if self.i >= self.nlocal {
                assert(self.remaining() =~= Seq::empty());
                return None;
            }
            let ghost before: Seq<(usize, usize)> = self.remaining();
            let ghost at: int = self.i as int;
            self.i = self.i + 1;
            if self.i >= self.nlocal {
                proof {
                    assert(pairs_from(self.offsets@, self.indices@, at + 1, self.nlocal as int)
                        =~= Seq::empty());
                    assert(before =~= Seq::empty());
                    assert(self.remaining() =~= Seq::empty());
                }
                return None;
            }
            self.k = self.offsets[self.i] as usize;
            self.end = self.offsets[self.i + 1] as usize;
            assert(self.remaining() =~= before);
        }
        let j: usize = self.indices[self.k] as usize;
        let i: usize = self.i;
        self.k = self.k + 1;
        proof {
            assert(all[0] == (i, j));
            assert(self.remaining() =~= all.skip(1));
        }
        Some((i, j))
    }

    /// All pairs that are still to come.
    pub fn collect(self) -> (r: Vec<(usize, usize)>)
        requires
            self.wf(),
        ensures
            r@ == self.remaining(),
    {
        let mut it: PairIter<'a> = self;
        let mut out: Vec<(usize, usize)> = Vec::new();
        let ghost all: Seq<(usize, usize)> = self.remaining();
        assert(out@ + all =~= all);
        loop
            invariant
                it.wf(),
                out@ + it.remaining() == all,
            ensures
                out@ == all,
            decreases it.remaining().len(),
        {
            let ghost left: Seq<(usize, usize)> = it.remaining();
            match it.next() {
                Some(p) => {
                    let ghost before: Seq<(usize, usize)> = out@;
                    out.push(p);
                    assert(out@ + it.remaining() =~= before + left);
                },
                None => {
                    assert(out@ + left =~= out@);
                    break;
                },
            }
        }
        out
    }
}

/// The pairs that the rows `from..n` of a list name.
pub open spec fn named_pairs(
    cells: Seq<u32>,
    stencil: Seq<i32>,
    has_self: bool,
    newton: bool,
    p: spec_fn(int, int) -> bool,
    from: int,
    n: int,
) -> Seq<(usize, usize)>
    decreases n - from,
{
    if from >= n {
        Seq::empty()
    } else {
        let r: Seq<u32> = row(cells, stencil, has_self, newton, p, from);
        r.map_values(|j: u32| (from as usize, j as usize)) + named_pairs(
            cells,
            stencil,
            has_self,
            newton,
            p,
            from + 1,
            n,
        )
    }
}

proof fn lemma_rows_prefix(
    cells: Seq<u32>,
    stencil: Seq<i32>,
    has_self: bool,
    newton: bool,
    p: spec_fn(int, int) -> bool,
    a: int,
    b: int,
)
    requires
        0 <= a <= b,
    ensures
        rows(cells, stencil, has_self, newton, p, a).len() <= rows(
            cells,
            stencil,
            has_self,
            newton,
            p,
            b,
        ).len(),
        rows(cells, stencil, has_self, newton, p, b).take(
            rows(cells, stencil, has_self, newton, p, a).len() as int,
        ) == rows(cells, stencil, has_self, newton, p, a),
    decreases b - a,
{
    let ra: Seq<u32> = rows(cells, stencil, has_self, newton, p, a);
    let rb: Seq<u32> = rows(cells, stencil, has_self, newton, p, b);
    if a < b {
        lemma_rows_prefix(cells, stencil, has_self, newton, p, a, b - 1);
        let rc: Seq<u32> = rows(cells, stencil, has_self, newton, p, b - 1);
        assert(rb.take(ra.len() as int) =~= rc.take(ra.len() as int));
    } else {
        assert(rb.take(ra.len() as int) =~= ra);
    }
}

/// Walking over a list of fewer than 2^32 entries meets every atom's
/// neighbours, atom by atom.
pub proof fn walk_meets_every_neighbor(
    cells: Seq<u32>,
    stencil: Seq<i32>,
    has_self: bool,
    newton: bool,
    p: spec_fn(int, int) -> bool,
    offsets: Seq<u32>,
    from: int,
    n: int,
)
    requires
        0 <= from <= n,
        offsets.len() == n + 1,
        rows(cells, stencil, has_self, newton, p, n).len() <= u32::MAX,
        forall|i: int|
            0 <= i <= n ==> #[trigger] offsets[i] == low32(
                rows(cells, stencil, has_self, newton, p, i).len() as int,
            ),
    ensures
        walkable(offsets, rows(cells, stencil, has_self, newton, p, n), n),
        pairs_from(offsets, rows(cells, stencil, has_self, newton, p, n), from, n) == named_pairs(
            cells,
            stencil,
            has_self,
            newton,
            p,
            from,
            n,
        ),
    decreases n - from,
{
    let all: Seq<u32> = rows(cells, stencil, has_self, newton, p, n);
    assert forall|i: int| 0 <= i <= n implies #[trigger] offsets[i] == rows(
        cells,
        stencil,
        has_self,
        newton,
        p,
        i,
    ).len() && offsets[i] <= all.len() by {
        lemma_rows_prefix(cells, stencil, has_self, newton, p, i, n);
    }
    if from < n {
        walk_meets_every_neighbor(cells, stencil, has_self, newton, p, offsets, from + 1, n);
        let r: Seq<u32> = row(cells, stencil, has_self, newton, p, from);
        lemma_rows_prefix(cells, stencil, has_self, newton, p, from, n);
        lemma_rows_prefix(cells, stencil, has_self, newton, p, from + 1, n);
        let lo: int = offsets[from] as int;
        let hi: int = offsets[from + 1] as int;
        let next: Seq<u32> = rows(cells, stencil, has_self, newton, p, from + 1);
        assert(hi == lo + r.len());
        assert forall|k: int| 0 <= k < r.len() implies all[lo + k] == r[k] by {
            assert(all.take(hi)[lo + k] == next[lo + k]);
        }
        assert(row_pairs(all, from, lo, hi) =~= r.map_values(
            |j: u32| (from as usize, j as usize),
        ));
    }
}

/// Whether every cell that the stencil reaches from a local atom lies in the grid.
pub fn stencil_in_grid(
    cells: &Vec<u32>,
    stencil: &Vec<i32>,
    newton: bool,
    nlocal: usize,
    total_cells: usize,
) -> (r: bool)
    requires
        nlocal <= cells@.len(),
    ensures
        r == stencil_fits(cells@, stencil@, newton, nlocal as int, total_cells as int),
{
    if nlocal == 0 {
        return true;
    }
    let mut low: u32 = cells[0];
    let mut high: u32 = cells[0];
    let ghost mut at_low: int = 0;
    let ghost mut at_high: int = 0;
    let mut i: usize = 1;
    while i < nlocal
        invariant
            1 <= i <= nlocal <= cells@.len(),
            0 <= at_low < i,
            0 <= at_high < i,
            cells@[at_low] == low,
            cells@[at_high] == high,
            forall|k: int| 0 <= k < i ==> low <= #[trigger] cells@[k] <= high,
        decreases nlocal - i,
    {
        if cells[i] < low {
            low = cells[i];
            proof {
                at_low = i as int;
            }
        }
        if cells[i] > high {
            high = cells[i];
            proof {
                at_high = i as int;
            }
        }
        i = i + 1;
    }
    let mut k: usize = 0;
    while k < stencil.len()
        invariant
            k <= stencil@.len(),
            0 < nlocal <= cells@.len(),
            0 <= at_low < nlocal,
            0 <= at_high < nlocal,
            cells@[at_low] == low,
            cells@[at_high] == high,
            forall|m: int| 0 <= m < nlocal ==> low <= #[trigger] cells@[m] <= high,
            forall|m: int|
                0 <= m < k && (newton || stencil@[m] != 0) ==> 0 <= low + #[trigger] stencil@[m]
                    && high + stencil@[m] < total_cells,
        decreases stencil.len() - k,
    {
        let o: i32 = stencil[k];
        if newton || o != 0 {
            if (low as i64 + o as i64) < 0 {
                assert(cells@[at_low] + stencil@[k as int] < 0);
                return false;
            }
            if high as i64 + o as i64 >= 0 && (high as i64 + o as i64) as u64 >= total_cells as u64 {
                assert(cells@[at_high] + stencil@[k as int] >= total_cells);
                return false;
            }
        }
        k = k + 1;
    }
    true
}

} // verus!
