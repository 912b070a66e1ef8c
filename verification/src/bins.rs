//! Sorting atoms into cells and listing the atoms of neighbouring cells.

use vstd::prelude::*;

verus! {

/// The atoms `lo..hi` that lie in cell `c`, in increasing order.
pub open spec fn members(cells: Seq<u32>, c: int, lo: int, hi: int) -> Seq<u32>
    decreases hi - lo,
{
    if hi <= lo {
        Seq::empty()
    } else if cells[hi - 1] == c {
        members(cells, c, lo, hi - 1).push((hi - 1) as u32)
    } else {
        members(cells, c, lo, hi - 1)
    }
}

/// The number of atoms below `n` that lie in a cell below `c`.
pub open spec fn start_upto(cells: Seq<u32>, c: int, n: int) -> int
    decreases c,
{
    if c <= 0 {
        0
    } else {
        start_upto(cells, c - 1, n) + members(cells, c - 1, 0, n).len()
    }
}

/// The number of atoms that lie in a cell below `c`.
pub open spec fn start_of(cells: Seq<u32>, c: int) -> int {
    start_upto(cells, c, cells.len() as int)
}

/// The atoms grouped by cell: cell `c` owns the slots `start[c]..start[c + 1]`
/// of `sorted`, and within a cell atoms keep their order.
pub struct Bins {
    /// First slot of each cell, with the number of atoms at the end.
    pub start: Vec<u32>,
    /// Atom in each slot.
    pub sorted: Vec<u32>,
    /// Slot of each atom.
    pub slot: Vec<u32>,
    /// End of each cell's slots.
    pub cursor: Vec<u32>,
}

impl Bins {
    pub open spec fn sorts(&self, cells: Seq<u32>, total_cells: int) -> bool {
        &&& self.start@.len() == total_cells + 1
        &&& forall|c: int| 0 <= c <= total_cells ==> #[trigger] self.start@[c] == start_of(cells, c)
        &&& self.sorted@.len() == cells.len()
        &&& forall|c: int, k: int|
            0 <= c < total_cells && 0 <= k < members(cells, c, 0, cells.len() as int).len()
                ==> self.sorted@[start_of(cells, c) + k] == #[trigger] members(
                cells,
                c,
                0,
                cells.len() as int,
            )[k]
        &&& self.slot@.len() == cells.len()
        &&& forall|i: int|
            0 <= i < cells.len() ==> #[trigger] self.slot@[i] == start_of(cells, cells[i] as int)
                + members(cells, cells[i] as int, 0, i).len()
        &&& self.cursor@.len() == total_cells
        &&& forall|c: int|
            0 <= c < total_cells ==> #[trigger] self.cursor@[c] == start_of(cells, c + 1)
    }
}

pub proof fn lemma_members_split(cells: Seq<u32>, c: int, lo: int, mid: int, hi: int)
    requires
        lo <= mid <= hi,
    ensures
        members(cells, c, lo, hi) == members(cells, c, lo, mid) + members(cells, c, mid, hi),
    decreases hi - mid,
{
    if mid < hi {
        lemma_members_split(cells, c, lo, mid, hi - 1);
    }
    assert(members(cells, c, lo, hi) =~= members(cells, c, lo, mid) + members(cells, c, mid, hi));
}

pub proof fn lemma_members_range(cells: Seq<u32>, c: int, lo: int, hi: int, k: int)
    requires
        0 <= lo,
        hi <= cells.len() <= u32::MAX,
        0 <= k < members(cells, c, lo, hi).len(),
    ensures
        lo <= members(cells, c, lo, hi)[k] < hi,
        cells[members(cells, c, lo, hi)[k] as int] == c,
        k + 1 < members(cells, c, lo, hi).len() ==> members(cells, c, lo, hi)[k] < members(
            cells,
            c,
            lo,
            hi,
        )[k + 1],
    decreases hi - lo,
{
    if hi > lo {
        let rest: Seq<u32> = members(cells, c, lo, hi - 1);
        if k < rest.len() {
            lemma_members_range(cells, c, lo, hi - 1, k);
        }
    }
}

proof fn lemma_members_increase(cells: Seq<u32>, c: int, lo: int, hi: int, j: int, k: int)
    requires
        0 <= lo,
        hi <= cells.len() <= u32::MAX,
        0 <= j < k < members(cells, c, lo, hi).len(),
    ensures
        members(cells, c, lo, hi)[j] < members(cells, c, lo, hi)[k],
    decreases k - j,
{
    lemma_members_range(cells, c, lo, hi, k - 1);
    if j < k - 1 {
        lemma_members_increase(cells, c, lo, hi, j, k - 1);
    }
}

pub proof fn lemma_members_contains(cells: Seq<u32>, c: int, lo: int, hi: int, x: u32)
    requires
        0 <= lo,
        hi <= cells.len() <= u32::MAX,
    ensures
        members(cells, c, lo, hi).contains(x) <==> lo <= x < hi && cells[x as int] == c,
        members(cells, c, lo, hi).no_duplicates(),
    decreases hi - lo,
{
    let s: Seq<u32> = members(cells, c, lo, hi);
    if hi > lo {
        lemma_members_contains(cells, c, lo, hi - 1, x);
        let rest: Seq<u32> = members(cells, c, lo, hi - 1);
        if cells[hi - 1] == c {
            assert(s[s.len() - 1] == hi - 1);
            if rest.contains(x) {
                let k: int = choose|k: int| 0 <= k < rest.len() && rest[k] == x;
                assert(s[k] == x);
            }
        }
    }
    assert(s.no_duplicates()) by {
        assert forall|j: int, k: int| 0 <= j < k < s.len() implies s[j] != s[k] by {
            lemma_members_increase(cells, c, lo, hi, j, k);
        }
    }
    if s.contains(x) {
        let k: int = choose|k: int| 0 <= k < s.len() && s[k] == x;
        lemma_members_range(cells, c, lo, hi, k);
    }
}

proof fn lemma_start_step(cells: Seq<u32>, c: int, n: int)
    requires
        0 <= n < cells.len(),
        0 <= c,
    ensures
        start_upto(cells, c, n + 1) == start_upto(cells, c, n) + if cells[n] < c {
            1int
        } else {
            0
        },
    decreases c,
{
    if c > 0 {
        lemma_start_step(cells, c - 1, n);
    }
}

proof fn lemma_start_none(cells: Seq<u32>, c: int)
    requires
        0 <= c,
    ensures
        start_upto(cells, c, 0) == 0,
    decreases c,
{
    if c > 0 {
        lemma_start_none(cells, c - 1);
    }
}

/// Counting every cell counts every atom.
pub proof fn lemma_start_total(cells: Seq<u32>, total_cells: int, n: int)
    requires
        0 <= n <= cells.len(),
        0 <= total_cells,
        forall|i: int| 0 <= i < cells.len() ==> #[trigger] cells[i] < total_cells,
    ensures
        start_upto(cells, total_cells, n) == n,
    decreases n,
{
    if n == 0 {
        lemma_start_none(cells, total_cells);
    } else {
        lemma_start_total(cells, total_cells, n - 1);
        lemma_start_step(cells, total_cells, n - 1);
    }
}

/// A cell's slots end where the next cell's begin, and no cell starts before an earlier one.
pub proof fn lemma_start_grows(cells: Seq<u32>, a: int, b: int)
    requires
        0 <= a <= b,
    ensures
        0 <= start_of(cells, a) <= start_of(cells, b),
        a < b ==> start_of(cells, a) + members(cells, a, 0, cells.len() as int).len() <= start_of(
            cells,
            b,
        ),
    decreases b,
{
    if a < b {
        lemma_start_grows(cells, a, b - 1);
    } else if b > 0 {
        lemma_start_grows(cells, b - 1, b - 1);
    }
}

/// Groups atoms by cell with a counting sort.
pub fn bin_atoms(cells: &Vec<u32>, total_cells: usize) -> (r: Bins)
    requires
        cells@.len() <= u32::MAX,
        total_cells < usize::MAX,
        forall|i: int| 0 <= i < cells@.len() ==> #[trigger] cells@[i] < total_cells,
    ensures
        r.sorts(cells@, total_cells as int),
{
    let n: usize = cells.len();
    let mut cursor: Vec<u32> = vec![0u32; total_cells];
    let mut i: usize = 0;
    while i < n
        invariant
            i <= n,
            n == cells@.len(),
            n <= u32::MAX,
            cursor@.len() == total_cells,
            forall|k: int| 0 <= k < cells@.len() ==> #[trigger] cells@[k] < total_cells,
            forall|c: int|
                0 <= c < total_cells ==> #[trigger] cursor@[c] == members(cells@, c, 0, i as int).len(),
        decreases n - i,
    {
        let c: usize = cells[i] as usize;
        assert(cursor@[c as int] < u32::MAX) by {
            lemma_members_len(cells@, c as int, i as int);
        }
        cursor[c] = cursor[c] + 1;
        i = i + 1;
    }
    let mut start: Vec<u32> = vec![0u32; total_cells + 1];
    let mut c: usize = 0;
    while c < total_cells
        invariant
            c <= total_cells,
            total_cells < usize::MAX,
            n == cells@.len(),
            n <= u32::MAX,
            start@.len() == total_cells + 1,
            cursor@.len() == total_cells,
            forall|k: int| 0 <= k < cells@.len() ==> #[trigger] cells@[k] < total_cells,
            forall|k: int|
                0 <= k < total_cells ==> #[trigger] cursor@[k] == members(cells@, k, 0, n as int).len(),
            forall|k: int| 0 <= k <= c ==> #[trigger] start@[k] == start_of(cells@, k),
        decreases total_cells - c,
    {
        proof {
            lemma_start_grows(cells@, c + 1, total_cells as int);
            lemma_start_total(cells@, total_cells as int, n as int);
            assert(start_of(cells@, c + 1) == start_of(cells@, c as int) + cursor@[c as int]);
        }
        let next: u32 = start[c] + cursor[c];
        start[c + 1] = next;
        c = c + 1;
    }
    let mut sorted: Vec<u32> = vec![0u32; n];
    let mut slot: Vec<u32> = vec![0u32; n];
    c = 0;
    while c < total_cells
        invariant
            c <= total_cells,
            total_cells < usize::MAX,
            start@.len() == total_cells + 1,
            cursor@.len() == total_cells,
            forall|k: int| 0 <= k < c ==> #[trigger] cursor@[k] == start@[k],
        decreases total_cells - c,
    {
        let s: u32 = start[c];
        cursor[c] = s;
        c = c + 1;
    }
    i = 0;
    while i < n
        invariant
            i <= n,
            n == cells@.len(),
            n <= u32::MAX,
            cursor@.len() == total_cells,
            sorted@.len() == n,
            slot@.len() == n,
            forall|k: int| 0 <= k < cells@.len() ==> #[trigger] cells@[k] < total_cells,
            forall|k: int|
                0 <= k < total_cells ==> #[trigger] cursor@[k] == start_of(cells@, k) + members(
                    cells@,
                    k,
                    0,
                    i as int,
                ).len(),
            forall|k: int, m: int|
                0 <= k < total_cells && 0 <= m < members(cells@, k, 0, i as int).len()
                    ==> sorted@[start_of(cells@, k) + m] == #[trigger] members(
                    cells@,
                    k,
                    0,
                    i as int,
                )[m],
            forall|k: int|
                0 <= k < i ==> #[trigger] slot@[k] == start_of(cells@, cells@[k] as int) + members(
                    cells@,
                    cells@[k] as int,
                    0,
                    k,
                ).len(),
        decreases n - i,
    {
        let c: usize = cells[i] as usize;
        let pos: u32 = cursor[c];
        let ghost before: Seq<u32> = sorted@;
        proof {
            lemma_members_split(cells@, c as int, 0, i + 1, n as int);
            lemma_start_grows(cells@, c + 1, total_cells as int);
            lemma_start_grows(cells@, c as int, total_cells as int);
            lemma_start_total(cells@, total_cells as int, n as int);
            assert(members(cells@, c as int, 0, i + 1).len() == members(cells@, c as int, 0, i as int).len()
                + 1);
            assert(pos < n);
        }
        sorted[pos as usize] = i as u32;
        slot[i] = pos;
        cursor[c] = pos + 1;
        proof {
            assert forall|k: int, m: int|
                0 <= k < total_cells && 0 <= m < members(cells@, k, 0, i + 1).len() implies sorted@[start_of(
                cells@,
                k,
            ) + m] == #[trigger] members(cells@, k, 0, i + 1)[m] by {
                let old_k: Seq<u32> = members(cells@, k, 0, i as int);
                lemma_members_split(cells@, k, 0, i + 1, n as int);
                if k != c {
                    assert(members(cells@, k, 0, i + 1) == old_k);
                    assert(before[start_of(cells@, k) + m] == old_k[m]);
                    if k < c {
                        lemma_start_grows(cells@, k, c as int);
                    } else {
                        lemma_start_grows(cells@, c as int, k);
                    }
                    lemma_start_grows(cells@, k, total_cells as int);
                } else if m < old_k.len() {
                    assert(before[start_of(cells@, k) + m] == old_k[m]);
                }
            }
        }
        i = i + 1;
    }
    Bins { start, sorted, slot, cursor }
}

proof fn lemma_members_len(cells: Seq<u32>, c: int, n: int)
    requires
        0 <= n,
    ensures
        members(cells, c, 0, n).len() <= n,
    decreases n,
{
    if n > 0 {
        lemma_members_len(cells, c, n - 1);
    }
}

/// The atoms of the cells below `c`, cell by cell.
pub open spec fn order_upto(cells: Seq<u32>, c: int) -> Seq<u32>
    decreases c,
{
    if c <= 0 {
        Seq::empty()
    } else {
        order_upto(cells, c - 1) + members(cells, c - 1, 0, cells.len() as int)
    }
}

proof fn lemma_order_at(cells: Seq<u32>, total: int, c: int, k: int)
    requires
        0 <= c < total,
        0 <= k < members(cells, c, 0, cells.len() as int).len(),
    ensures
        order_upto(cells, total).len() == start_of(cells, total),
        0 <= start_of(cells, c) + k < start_of(cells, total),
        order_upto(cells, total)[start_of(cells, c) + k] == members(
            cells,
            c,
            0,
            cells.len() as int,
        )[k],
    decreases total,
{
    lemma_order_len(cells, total);
    lemma_order_len(cells, total - 1);
    lemma_start_grows(cells, c, total);
    if c < total - 1 {
        lemma_order_at(cells, total - 1, c, k);
    }
}

proof fn lemma_order_len(cells: Seq<u32>, total: int)
    requires
        0 <= total,
    ensures
        order_upto(cells, total).len() == start_of(cells, total),
    decreases total,
{
    if total > 0 {
        lemma_order_len(cells, total - 1);
    }
}

/// The cell that owns a slot.
proof fn lemma_block(cells: Seq<u32>, total: int, m: int) -> (c: int)
    requires
        0 <= total,
        0 <= m < start_of(cells, total),
    ensures
        0 <= c < total,
        start_of(cells, c) <= m < start_of(cells, c + 1),
        start_of(cells, c + 1) == start_of(cells, c) + members(cells, c, 0, cells.len() as int).len(),
    decreases total,
{
    if m >= start_of(cells, total - 1) {
        total - 1
    } else {
        lemma_block(cells, total - 1, m)
    }
}

/// The counting sort puts the atoms in the order of their cells.
pub proof fn lemma_sorted_is_order(bins: Bins, cells: Seq<u32>, total: int)
    requires
        bins.sorts(cells, total),
        0 <= total,
        forall|i: int| 0 <= i < cells.len() ==> #[trigger] cells[i] < total,
    ensures
        bins.sorted@ == order_upto(cells, total),
{
    lemma_order_len(cells, total);
    lemma_start_total(cells, total, cells.len() as int);
    assert forall|m: int| 0 <= m < cells.len() implies bins.sorted@[m] == order_upto(
        cells,
        total,
    )[m] by {
        let c: int = lemma_block(cells, total, m);
        let k: int = m - start_of(cells, c);
        lemma_order_at(cells, total, c, k);
        assert(bins.sorted@[start_of(cells, c) + k] == members(cells, c, 0, cells.len() as int)[k]);
    }
    assert(bins.sorted@ =~= order_upto(cells, total));
}

/// Sorting by cell neither loses nor repeats an atom, brings the cells in
/// order, and keeps the order of atoms that share a cell.
pub proof fn order_is_stable_permutation(cells: Seq<u32>, total: int)
    requires
        0 <= total,
        cells.len() <= u32::MAX,
        forall|i: int| 0 <= i < cells.len() ==> #[trigger] cells[i] < total,
    ensures
        order_upto(cells, total).len() == cells.len(),
        order_upto(cells, total).no_duplicates(),
        forall|k: int| 0 <= k < cells.len() ==> #[trigger] order_upto(cells, total)[k] < cells.len(),
        forall|i: u32| i < cells.len() ==> #[trigger] order_upto(cells, total).contains(i),
        forall|j: int, k: int|
            0 <= j < k < cells.len() ==> {
                let a = #[trigger] order_upto(cells, total)[j];
                let b = #[trigger] order_upto(cells, total)[k];
                cells[a as int] < cells[b as int] || (cells[a as int] == cells[b as int] && a < b)
            },
{
    let n: int = cells.len() as int;
    let order: Seq<u32> = order_upto(cells, total);
    lemma_order_len(cells, total);
    lemma_start_total(cells, total, n);
    assert forall|k: int| 0 <= k < n implies #[trigger] order[k] < n by {
        let c: int = lemma_block(cells, total, k);
        lemma_order_at(cells, total, c, k - start_of(cells, c));
        lemma_members_range(cells, c, 0, n, k - start_of(cells, c));
    }
    assert forall|i: u32| i < n implies #[trigger] order.contains(i) by {
        let c: int = cells[i as int] as int;
        lemma_members_contains(cells, c, 0, n, i);
        let s: Seq<u32> = members(cells, c, 0, n);
        let k: int = choose|k: int| 0 <= k < s.len() && s[k] == i;
        lemma_order_at(cells, total, c, k);
        assert(order[start_of(cells, c) + k] == i);
    }
    assert forall|j: int, k: int| 0 <= j < k < n implies {
        let a = #[trigger] order[j];
        let b = #[trigger] order[k];
        cells[a as int] < cells[b as int] || (cells[a as int] == cells[b as int] && a < b)
    } by {
        let c: int = lemma_block(cells, total, j);
        let d: int = lemma_block(cells, total, k);
        lemma_order_at(cells, total, c, j - start_of(cells, c));
        lemma_order_at(cells, total, d, k - start_of(cells, d));
        lemma_members_range(cells, c, 0, n, j - start_of(cells, c));
        lemma_members_range(cells, d, 0, n, k - start_of(cells, d));
        if d < c {
            lemma_start_grows(cells, d + 1, c);
        } else if c == d {
            lemma_members_increase(
                cells,
                c,
                0,
                n,
                j - start_of(cells, c),
                k - start_of(cells, c),
            );
        }
    }
}

} // verus!
