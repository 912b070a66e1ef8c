//! The reverse pass in real numbers: what the ghosts give back, counted once each.

use crate::atom::Atom;
use crate::atom_data::{AtomData, AtomDataRegistry, Field};
use crate::border_steps::{swap_ready, swaps_contiguous, swaps_ready};
use crate::borders::{axis_of, swaps_before};
use crate::carried::reverse_messages_add_the_ghosts_columns;
use crate::columns::{part, record_size, ColumnStore};
use crate::comm::{CommTopology, SwapData};
use crate::domain::Domain;
use crate::exact::{exact_sum, num};
use crate::ghosts::skin_atoms;
use crate::scalar::{sum, summing, Op, Scalar, Vec3};
use crate::serial::{
    forces_back, forces_returned, rebuilt_upto, rows_back, rows_returned, stays_here, swap_made,
    to_itself, visited,
};
use vstd::prelude::*;

verus! {

/// The swaps of a process that is its own neighbour: the ghosts stand in the order of
/// the swaps, and the second swap of a hop sends only atoms that were there before the
/// first.
pub open spec fn in_order(swaps: Seq<SwapData>, rank: i32, nlocal: int, n: int) -> bool {
    &&& swaps_ready(swaps, swaps.len() as int, n, rank)
    &&& swaps_contiguous(swaps, swaps.len() as int, nlocal, n)
    &&& 0 <= nlocal <= n
    &&& swaps.len() % 2 == 0
    &&& forall|k: int|
        0 <= k < swaps.len() ==> to_itself(#[trigger] swaps[k], rank) || swaps[k].recv_count == 0
    &&& forall|k: int, j: int|
        0 <= k < swaps.len() && 0 <= j < swaps[k].send_indices@.len() ==> (
        #[trigger] swaps[k].send_indices@[j]) < swaps[k - k % 2].recv_start
}

/// The local atom that each atom is an image of, over any number of faces: a local
/// atom is its own, and a ghost has that of the atom it was copied from.
pub open spec fn roots(swaps: Seq<SwapData>, nlocal: int, k: int) -> Seq<int>
    decreases k,
{
    if k <= 0 {
        Seq::new(nlocal as nat, |i: int| i)
    } else {
        let r = roots(swaps, nlocal, k - 1);
        r + Seq::new(
            swaps[k - 1].recv_count as nat,
            |j: int| r[swaps[k - 1].send_indices@[j] as int],
        )
    }
}

/// The forces along axis `d` of atom `i` and of all its images among the first `k`
/// atoms, added up.
pub open spec fn force_of_images(force: Seq<Vec3>, root: Seq<int>, i: int, d: int, k: int) -> real
    decreases k,
{
    if k <= 0 {
        0real
    } else if root[k - 1] == i {
        force_of_images(force, root, i, d, k - 1) + num(force[k - 1][d])
    } else {
        force_of_images(force, root, i, d, k - 1)
    }
}

/// Every addition of a reverse pass is exact.
pub open spec fn exact_returns<F: Fn(Op, Scalar, Scalar, Scalar) -> Scalar>(
    ar: F,
    force: Seq<Vec3>,
    swaps: Seq<SwapData>,
    rank: i32,
) -> bool {
    forall|t: int, j: int, d: int| #[trigger]
        exact_return(ar, force, swaps, rank, t, j, d)
}

/// The addition for ghost `j` of the swap that is visited as number `t` is exact.
pub open spec fn exact_return<F: Fn(Op, Scalar, Scalar, Scalar) -> Scalar>(
    ar: F,
    force: Seq<Vec3>,
    swaps: Seq<SwapData>,
    rank: i32,
    t: int,
    j: int,
    d: int,
) -> bool {
    let swap = swaps[visited(swaps.len() as int, t)];
    let f = forces_back(ar, force, swaps, rank, t);
    0 <= t < swaps.len() && to_itself(swap, rank) && 0 <= j < swap.send_indices@.len() && 0 <= d < 3
        ==> exact_sum(
        ar,
        forces_returned(ar, f, swap, j)[swap.send_indices@[j] as int][d],
        f[swap.recv_start + j][d],
    )
}

/// The forces of those images that have not given theirs back yet.
spec fn still_held(
    force: Seq<Vec3>,
    root: Seq<int>,
    held: Seq<bool>,
    i: int,
    d: int,
    k: int,
) -> real
    decreases k,
{
    if k <= 0 {
        0real
    } else if held[k - 1] && root[k - 1] == i {
        still_held(force, root, held, i, d, k - 1) + num(force[k - 1][d])
    } else {
        still_held(force, root, held, i, d, k - 1)
    }
}

/// Who still holds a force after the first `j` ghosts of the swap gave theirs.
spec fn held_returned(held: Seq<bool>, swap: SwapData, j: int) -> Seq<bool>
    decreases j,
{
    if j <= 0 {
        held
    } else {
        held_returned(held, swap, j - 1).update(swap.recv_start + j - 1, false)
    }
}

/// Who still holds a force after the first `t` swaps of a reverse pass.
spec fn held_back(n: int, swaps: Seq<SwapData>, rank: i32, t: int) -> Seq<bool>
    decreases t,
{
    if t <= 0 {
        Seq::new(n as nat, |x: int| true)
    } else {
        let h = held_back(n, swaps, rank, t - 1);
        let swap = swaps[visited(swaps.len() as int, t - 1)];
        if to_itself(swap, rank) {
            held_returned(h, swap, swap.send_indices@.len() as int)
        } else {
            h
        }
    }
}

/// The atom is a ghost of the swap and gives its force in it.
spec fn gives(swap: SwapData, rank: i32, x: int) -> bool {
    to_itself(swap, rank) && swap.recv_start <= x < swap.recv_start + swap.send_indices@.len()
}

proof fn lemma_held_update(
    force: Seq<Vec3>,
    root: Seq<int>,
    held: Seq<bool>,
    i: int,
    d: int,
    k: int,
    o: int,
    v: Vec3,
)
    requires
        0 <= k <= force.len(),
        0 <= o < force.len(),
    ensures
        still_held(force.update(o, v), root, held, i, d, k) == still_held(
            force,
            root,
            held,
            i,
            d,
            k,
        ) + (if o < k && held[o] && root[o] == i {
            num(v[d]) - num(force[o][d])
        } else {
            0real
        }),
    decreases k,
{
    if k > 0 {
        lemma_held_update(force, root, held, i, d, k - 1, o, v);
    }
}

proof fn lemma_held_drop(
    force: Seq<Vec3>,
    root: Seq<int>,
    held: Seq<bool>,
    i: int,
    d: int,
    k: int,
    g: int,
)
    requires
        0 <= k <= held.len(),
        0 <= g < held.len(),
    ensures
        still_held(force, root, held.update(g, false), i, d, k) == still_held(
            force,
            root,
            held,
            i,
            d,
            k,
        ) - (if g < k && held[g] && root[g] == i {
            num(force[g][d])
        } else {
            0real
        }),
    decreases k,
{
    if k > 0 {
        lemma_held_drop(force, root, held, i, d, k - 1, g);
    }
}

proof fn lemma_held_returned(held: Seq<bool>, swap: SwapData, j: int)
    requires
        0 <= j,
        swap.recv_start + j <= held.len(),
    ensures
        held_returned(held, swap, j).len() == held.len(),
        forall|x: int|
            0 <= x < held.len() ==> #[trigger] held_returned(held, swap, j)[x] == (held[x] && !(
            swap.recv_start <= x < swap.recv_start + j)),
    decreases j,
{
    if j > 0 {
        lemma_held_returned(held, swap, j - 1);
    }
}

/// What a swap's ghosts give is what they had when the swap began.
proof fn lemma_ghosts_keep<F: Fn(Op, Scalar, Scalar, Scalar) -> Scalar>(
    ar: F,
    force: Seq<Vec3>,
    swap: SwapData,
    j: int,
)
    requires
        0 <= j <= swap.send_indices@.len(),
        forall|k: int|
            0 <= k < swap.send_indices@.len() ==> (#[trigger] swap.send_indices@[k])
                < swap.recv_start,
        swap.recv_start <= force.len(),
    ensures
        forces_returned(ar, force, swap, j).len() == force.len(),
        forall|x: int|
            swap.recv_start <= x < force.len() ==> #[trigger] forces_returned(ar, force, swap, j)[x]
                == force[x],
    decreases j,
{
    if j > 0 {
        lemma_ghosts_keep(ar, force, swap, j - 1);
        assert(swap.send_indices@[j - 1] < swap.recv_start);
    }
}

/// One swap gives no force twice and loses none.
proof fn lemma_swap_returns<F: Fn(Op, Scalar, Scalar, Scalar) -> Scalar>(
    ar: F,
    force: Seq<Vec3>,
    root: Seq<int>,
    held: Seq<bool>,
    swap: SwapData,
    i: int,
    d: int,
    j: int,
)
    requires
        0 <= d < 3,
        0 <= j <= swap.send_indices@.len(),
        force.len() == held.len(),
        swap.recv_start + swap.send_indices@.len() <= force.len(),
        forall|k: int|
            0 <= k < swap.send_indices@.len() ==> {
                let o = #[trigger] swap.send_indices@[k] as int;
                &&& o < swap.recv_start
                &&& held[o]
                &&& held[swap.recv_start + k]
                &&& root[swap.recv_start + k] == root[o]
                &&& exact_sum(
                    ar,
                    forces_returned(ar, force, swap, k)[o][d],
                    force[swap.recv_start + k][d],
                )
            },
    ensures
        still_held(
            forces_returned(ar, force, swap, j),
            root,
            held_returned(held, swap, j),
            i,
            d,
            force.len() as int,
        ) == still_held(force, root, held, i, d, force.len() as int),
    decreases j,
{
    if j > 0 {
        let n: int = force.len() as int;
        let (o, g): (int, int) = (swap.send_indices@[j - 1] as int, swap.recv_start + j - 1);
        let f: Seq<Vec3> = forces_returned(ar, force, swap, j - 1);
        let h: Seq<bool> = held_returned(held, swap, j - 1);
        lemma_swap_returns(ar, force, root, held, swap, i, d, j - 1);
        lemma_ghosts_keep(ar, force, swap, j - 1);
        lemma_held_returned(held, swap, j - 1);
        let given: Vec3 = force[g];
        let v: Vec3 = [
            sum(ar, f[o][0], given[0]),
            sum(ar, f[o][1], given[1]),
            sum(ar, f[o][2], given[2]),
        ];
        assert(num(v[d]) == num(f[o][d]) + num(given[d]));
        lemma_held_update(f, root, h, i, d, n, o, v);
        lemma_held_drop(f.update(o, v), root, h, i, d, n, g);
        assert(f.update(o, v)[g] == given);
        assert(h[o] && h[g]);
    }
}

/// A reverse pass visits every swap once, later pairs first and within a pair the first.
proof fn lemma_visited(len: int, s: int, t: int)
    requires
        len % 2 == 0,
        0 <= s < t < len,
    ensures
        0 <= visited(len, t) < len,
        0 <= visited(len, s) < len,
        visited(len, s) > visited(len, t) || (visited(len, s) == visited(len, t) - 1 && visited(
            len,
            t,
        ) % 2 == 1),
{
}

proof fn lemma_visits(len: int, m: int) -> (t: int)
    requires
        len % 2 == 0,
        0 <= m < len,
    ensures
        0 <= t < len,
        visited(len, t) == m,
{
    len - 2 - (m - m % 2) + m % 2
}

/// Who still holds a force: who is a ghost of none of the visited swaps.
proof fn lemma_held_back(n: int, swaps: Seq<SwapData>, rank: i32, nlocal: int, t: int)
    requires
        in_order(swaps, rank, nlocal, n),
        0 <= t <= swaps.len(),
    ensures
        held_back(n, swaps, rank, t).len() == n,
        forall|x: int|
            0 <= x < n ==> (#[trigger] held_back(n, swaps, rank, t)[x] <==> (forall|s: int|
                0 <= s < t ==> !gives(
                    swaps[#[trigger] visited(swaps.len() as int, s)],
                    rank,
                    x,
                ))),
    decreases t,
{
    if t > 0 {
        let len: int = swaps.len() as int;
        let m: int = visited(len, t - 1);
        let swap: SwapData = swaps[m];
        lemma_held_back(n, swaps, rank, nlocal, t - 1);
        assert(0 <= m < len);
        assert(swap_ready(swap, n, rank));
        let h: Seq<bool> = held_back(n, swaps, rank, t - 1);
        if to_itself(swap, rank) {
            lemma_held_returned(h, swap, swap.send_indices@.len() as int);
        }
        assert forall|x: int| 0 <= x < n implies (#[trigger] held_back(n, swaps, rank, t)[x] <==> (
        forall|s: int|
            0 <= s < t ==> !gives(swaps[#[trigger] visited(len, s)], rank, x))) by {
            assert(held_back(n, swaps, rank, t)[x] == (h[x] && !gives(swap, rank, x)));
            if h[x] && !gives(swap, rank, x) {
                assert forall|s: int| 0 <= s < t implies !gives(
                    swaps[#[trigger] visited(len, s)],
                    rank,
                    x,
                ) by {
                    if s == t - 1 {
                        assert(visited(len, s) == m);
                    }
                }
            } else if !h[x] {
                let s: int = choose|s: int|
                    0 <= s < t - 1 && gives(swaps[#[trigger] visited(len, s)], rank, x);
                assert(gives(swaps[visited(len, s)], rank, x));
            } else {
                assert(gives(swaps[visited(len, t - 1)], rank, x));
            }
        }
    }
}

/// The roots of the first swaps are those of all.
proof fn lemma_roots(swaps: Seq<SwapData>, rank: i32, nlocal: int, n: int, k: int)
    requires
        in_order(swaps, rank, nlocal, n),
        0 <= k <= swaps.len(),
    ensures
        roots(swaps, nlocal, k).len() == if k == 0 {
            nlocal
        } else {
            swaps[k - 1].recv_start + swaps[k - 1].recv_count
        },
        k < swaps.len() ==> roots(swaps, nlocal, k).len() == swaps[k].recv_start,
        forall|i: int| 0 <= i < nlocal ==> #[trigger] roots(swaps, nlocal, k)[i] == i,
        forall|m: int, j: int|
            0 <= m < k && 0 <= j < swaps[m].recv_count ==> roots(
                swaps,
                nlocal,
                k,
            )[swaps[m].recv_start + j] == roots(
                swaps,
                nlocal,
                k,
            )[#[trigger] swaps[m].send_indices@[j] as int],
        nlocal <= roots(swaps, nlocal, k).len(),
    decreases k,
{
    if k > 0 {
        lemma_roots(swaps, rank, nlocal, n, k - 1);
        let r: Seq<int> = roots(swaps, nlocal, k - 1);
        let now: Seq<int> = roots(swaps, nlocal, k);
        assert(swap_ready(swaps[k - 1], n, rank));
        assert(to_itself(swaps[k - 1], rank) || swaps[k - 1].recv_count == 0);
        assert forall|m: int, j: int| 0 <= m < k && 0 <= j < swaps[m].recv_count implies now[swaps[m].recv_start
            + j] == now[#[trigger] swaps[m].send_indices@[j] as int] by {
            assert(swap_ready(swaps[m], n, rank));
            assert(to_itself(swaps[m], rank) || swaps[m].recv_count == 0);
            assert(swaps[m].send_indices@[j] < swaps[m].recv_start);
            if m < k - 1 {
                assert(swaps[m].recv_start + swaps[m].recv_count <= swaps[k - 1].recv_start);
            }
        }
        if k < swaps.len() {
            assert(swaps[k].recv_start == swaps[k - 1].recv_start + swaps[k - 1].recv_count);
        }
    }
}

/// The reverse pass gives no force twice and loses none.
proof fn lemma_pass_returns<F: Fn(Op, Scalar, Scalar, Scalar) -> Scalar>(
    ar: F,
    force: Seq<Vec3>,
    swaps: Seq<SwapData>,
    rank: i32,
    nlocal: int,
    i: int,
    d: int,
    t: int,
)
    requires
        in_order(swaps, rank, nlocal, force.len() as int),
        exact_returns(ar, force, swaps, rank),
        0 <= d < 3,
        0 <= t <= swaps.len(),
    ensures
        ({
            let n = force.len() as int;
            let root = roots(swaps, nlocal, swaps.len() as int);
            &&& forces_back(ar, force, swaps, rank, t).len() == n
            &&& still_held(
                forces_back(ar, force, swaps, rank, t),
                root,
                held_back(n, swaps, rank, t),
                i,
                d,
                n,
            ) == still_held(force, root, held_back(n, swaps, rank, 0), i, d, n)
        }),
    decreases t,
{
    if t > 0 {
        lemma_pass_returns(ar, force, swaps, rank, nlocal, i, d, t - 1);
        let n: int = force.len() as int;
        let len: int = swaps.len() as int;
        let root: Seq<int> = roots(swaps, nlocal, len);
        let m: int = visited(len, t - 1);
        let swap: SwapData = swaps[m];
        let f: Seq<Vec3> = forces_back(ar, force, swaps, rank, t - 1);
        let h: Seq<bool> = held_back(n, swaps, rank, t - 1);
        assert(0 <= m < len);
        assert(swap_ready(swap, n, rank));
        if to_itself(swap, rank) {
            lemma_held_back(n, swaps, rank, nlocal, t - 1);
            lemma_roots(swaps, rank, nlocal, n, len);
            assert forall|k: int| 0 <= k < swap.send_indices@.len() implies {
                let o = #[trigger] swap.send_indices@[k] as int;
                &&& o < swap.recv_start
                &&& h[o]
                &&& h[swap.recv_start + k]
                &&& root[swap.recv_start + k] == root[o]
                &&& exact_sum(ar, forces_returned(ar, f, swap, k)[o][d], f[swap.recv_start + k][d])
            } by {
                let o: int = swap.send_indices@[k] as int;
                lemma_both_hold(n, swaps, rank, nlocal, t - 1, k);
                assert(exact_return(ar, force, swaps, rank, t - 1, k, d));
            }
            lemma_swap_returns(ar, f, root, h, swap, i, d, swap.send_indices@.len() as int);
            lemma_ghosts_keep(ar, f, swap, swap.send_indices@.len() as int);
        }
    }
}

/// When a swap is visited its ghosts and their owners have given nothing yet.
proof fn lemma_both_hold(n: int, swaps: Seq<SwapData>, rank: i32, nlocal: int, t: int, k: int)
    requires
        in_order(swaps, rank, nlocal, n),
        0 <= t < swaps.len(),
        to_itself(swaps[visited(swaps.len() as int, t)], rank),
        0 <= k < swaps[visited(swaps.len() as int, t)].send_indices@.len(),
    ensures
        ({
            let swap = swaps[visited(swaps.len() as int, t)];
            let o = swap.send_indices@[k] as int;
            &&& o < swap.recv_start
            &&& swap.recv_start + k < n
            &&& held_back(n, swaps, rank, t)[o]
            &&& held_back(n, swaps, rank, t)[swap.recv_start + k]
        }),
{
    let len: int = swaps.len() as int;
    let m: int = visited(len, t);
    let swap: SwapData = swaps[m];
    assert(0 <= m < len);
    assert(swap_ready(swap, n, rank));
    let (o, g): (int, int) = (swap.send_indices@[k] as int, swap.recv_start + k);
    assert(swaps[m].send_indices@[k] < swaps[m - m % 2].recv_start);
    lemma_held_back(n, swaps, rank, nlocal, t);
    assert forall|s: int| 0 <= s < t implies !gives(swaps[#[trigger] visited(len, s)], rank, o)
        && !gives(swaps[visited(len, s)], rank, g) by {
        let q: int = visited(len, s);
        lemma_visited(len, s, t);
        assert(swap_ready(swaps[q], n, rank));
        if q > m {
            assert(swaps[m].recv_start + swaps[m].recv_count <= swaps[q].recv_start);
        } else {
            assert(swaps[q].recv_start + swaps[q].recv_count <= swaps[m].recv_start);
            assert(q == m - m % 2);
        }
    }
}

/// Every ghost is the ghost of a swap.
proof fn lemma_ghost_of_swap(swaps: Seq<SwapData>, rank: i32, nlocal: int, n: int, k: int, x: int) -> (m:
    int)
    requires
        in_order(swaps, rank, nlocal, n),
        0 < k <= swaps.len(),
        nlocal <= x < swaps[k - 1].recv_start + swaps[k - 1].recv_count,
    ensures
        0 <= m < k,
        swaps[m].recv_start <= x < swaps[m].recv_start + swaps[m].recv_count,
    decreases k,
{
    if x >= swaps[k - 1].recv_start {
        k - 1
    } else {
        assert(swaps[k - 1].recv_start == swaps[k - 2].recv_start + swaps[k - 2].recv_count);
        lemma_ghost_of_swap(swaps, rank, nlocal, n, k - 1, x)
    }
}

/// At the end of a reverse pass the local atoms hold all forces.
proof fn lemma_locals_hold(n: int, swaps: Seq<SwapData>, rank: i32, nlocal: int, x: int)
    requires
        in_order(swaps, rank, nlocal, n),
        0 <= x < n,
    ensures
        held_back(n, swaps, rank, swaps.len() as int)[x] == (x < nlocal),
{
    let len: int = swaps.len() as int;
    lemma_held_back(n, swaps, rank, nlocal, len);
    if x < nlocal {
        assert forall|s: int| 0 <= s < len implies !gives(
            swaps[#[trigger] visited(len, s)],
            rank,
            x,
        ) by {
            let q: int = visited(len, s);
            assert(0 <= q < len);
            if q > 0 {
                assert(swaps[0].recv_start + swaps[0].recv_count <= swaps[q].recv_start);
            }
        }
    } else {
        assert(len > 0);
        let m: int = lemma_ghost_of_swap(swaps, rank, nlocal, n, len, x);
        let t: int = lemma_visits(len, m);
        assert(swap_ready(swaps[m], n, rank));
        assert(to_itself(swaps[m], rank));
        assert(gives(swaps[visited(len, t)], rank, x));
    }
}

proof fn lemma_all_held(force: Seq<Vec3>, root: Seq<int>, held: Seq<bool>, i: int, d: int, k: int)
    requires
        k <= held.len(),
        forall|x: int| 0 <= x < held.len() ==> #[trigger] held[x],
    ensures
        still_held(force, root, held, i, d, k) == force_of_images(force, root, i, d, k),
    decreases k,
{
    if k > 0 {
        lemma_all_held(force, root, held, i, d, k - 1);
    }
}

proof fn lemma_only_local(
    force: Seq<Vec3>,
    root: Seq<int>,
    held: Seq<bool>,
    nlocal: int,
    i: int,
    d: int,
    k: int,
)
    requires
        0 <= i < nlocal <= held.len(),
        0 <= k <= held.len(),
        forall|x: int| 0 <= x < held.len() ==> #[trigger] held[x] == (x < nlocal),
        forall|x: int| 0 <= x < nlocal ==> #[trigger] root[x] == x,
    ensures
        still_held(force, root, held, i, d, k) == if k > i {
            num(force[i][d])
        } else {
            0real
        },
    decreases k,
{
    if k > 0 {
        lemma_only_local(force, root, held, nlocal, i, d, k - 1);
    }
}

/// A reverse pass brings every force home: afterwards the force on a local atom is,
/// in real numbers, the sum of the forces that it and all its images had, ghosts of
/// ghosts at edges and corners among them, each counted once.
pub proof fn images_return_their_forces_once<F: Fn(Op, Scalar, Scalar, Scalar) -> Scalar>(
    ar: F,
    force: Seq<Vec3>,
    swaps: Seq<SwapData>,
    rank: i32,
    nlocal: int,
    i: int,
    d: int,
)
    requires
        in_order(swaps, rank, nlocal, force.len() as int),
        exact_returns(ar, force, swaps, rank),
        0 <= i < nlocal,
        0 <= d < 3,
    ensures
        num(forces_back(ar, force, swaps, rank, swaps.len() as int)[i][d]) == force_of_images(
            force,
            roots(swaps, nlocal, swaps.len() as int),
            i,
            d,
            force.len() as int,
        ),
{
    let n: int = force.len() as int;
    let len: int = swaps.len() as int;
    let root: Seq<int> = roots(swaps, nlocal, len);
    let held: Seq<bool> = held_back(n, swaps, rank, len);
    lemma_pass_returns(ar, force, swaps, rank, nlocal, i, d, len);
    lemma_roots(swaps, rank, nlocal, n, len);
    lemma_held_back(n, swaps, rank, nlocal, len);
    assert forall|x: int| 0 <= x < held.len() implies #[trigger] held[x] == (x < nlocal) by {
        lemma_locals_hold(n, swaps, rank, nlocal, x);
    }
    lemma_all_held(force, root, held_back(n, swaps, rank, 0), i, d, n);
    lemma_only_local(
        forces_back(ar, force, swaps, rank, len),
        root,
        held,
        nlocal,
        i,
        d,
        n,
    );
}

/// Atoms near a face are looked for among the first `n` only.
proof fn lemma_skin_below<F: Fn(Op, Scalar, Scalar, Scalar) -> Scalar>(
    ar: F,
    atoms: Atom,
    domain: Domain,
    dim: int,
    swap: int,
    cutoff: Scalar,
    n: int,
    j: int,
)
    requires
        n <= usize::MAX,
        0 <= j < skin_atoms(ar, atoms, domain, dim, swap, cutoff, n).len(),
    ensures
        skin_atoms(ar, atoms, domain, dim, swap, cutoff, n)[j] < n,
    decreases n,
{
    if n > 0 {
        let rest: Seq<usize> = skin_atoms(ar, atoms, domain, dim, swap, cutoff, n - 1);
        if j < rest.len() {
            lemma_skin_below(ar, atoms, domain, dim, swap, cutoff, n - 1, j);
        }
    }
}

/// The ghosts that a rebuild makes are in the order that the reverse pass needs.
pub proof fn rebuilt_ghosts_are_in_order<D: AtomData, F: Fn(Op, Scalar, Scalar, Scalar) -> Scalar>(
    ar: F,
    domain: Domain,
    rank: i32,
    first: Atom,
    first_registry: AtomDataRegistry<D>,
    atoms: Atom,
    registry: AtomDataRegistry<D>,
    topo: CommTopology,
)
    requires
        ({
            let swaps = topo.swap_data@;
            let n = atoms.records().len() as int;
            &&& rebuilt_upto(
                ar,
                domain,
                rank,
                first,
                first_registry,
                atoms,
                registry,
                topo,
                swaps.len() as int,
            )
            &&& swaps.len() == swaps_before(topo.maxneed, 3)
            &&& swaps_ready(swaps, swaps.len() as int, n, rank)
            &&& swaps_contiguous(swaps, swaps.len() as int, atoms.nlocal as int, n)
        }),
    ensures
        in_order(
            topo.swap_data@,
            rank,
            atoms.nlocal as int,
            atoms.records().len() as int,
        ),
{
    let swaps: Seq<SwapData> = topo.swap_data@;
    assert forall|k: int| 0 <= k < swaps.len() implies to_itself(#[trigger] swaps[k], rank)
        || swaps[k].recv_count == 0 by {
        assert(swap_made(ar, atoms, topo, domain, rank, k));
        assert(stays_here(swaps[k], rank));
    }
    assert forall|k: int, j: int|
        0 <= k < swaps.len() && 0 <= j < swaps[k].send_indices@.len() implies (
    #[trigger] swaps[k].send_indices@[j]) < swaps[k - k % 2].recv_start by {
        assert(swap_made(ar, atoms, topo, domain, rank, k));
        let dim: int = axis_of(topo.maxneed, k);
        lemma_skin_below(
            ar,
            atoms,
            domain,
            dim,
            k % 2,
            domain.ghost_cutoff,
            swaps[k - k % 2].recv_start as int,
            j,
        );
    }
    reveal_with_fuel(swaps_before, 4);
}

/// One value for each atom, after the first `j` ghosts of the swap added theirs to their
/// owners'.
pub open spec fn values_returned(v: Seq<real>, swap: SwapData, j: int) -> Seq<real>
    decreases j,
{
    if j <= 0 {
        v
    } else {
        let w = values_returned(v, swap, j - 1);
        let o = swap.send_indices@[j - 1] as int;
        w.update(o, w[o] + v[swap.recv_start + j - 1])
    }
}

/// One value for each atom, after the first `t` swaps of a reverse pass.
pub open spec fn values_back(v: Seq<real>, swaps: Seq<SwapData>, rank: i32, t: int) -> Seq<real>
    decreases t,
{
    if t <= 0 {
        v
    } else {
        let w = values_back(v, swaps, rank, t - 1);
        let swap = swaps[visited(swaps.len() as int, t - 1)];
        if to_itself(swap, rank) {
            values_returned(w, swap, swap.send_indices@.len() as int)
        } else {
            w
        }
    }
}

/// The values of an atom and of all its images among the first `k` atoms, added up.
pub open spec fn sum_of_images(v: Seq<real>, root: Seq<int>, i: int, k: int) -> real
    decreases k,
{
    if k <= 0 {
        0real
    } else if root[k - 1] == i {
        sum_of_images(v, root, i, k - 1) + v[k - 1]
    } else {
        sum_of_images(v, root, i, k - 1)
    }
}

/// The values of those images that have not given theirs back yet.
spec fn values_held(v: Seq<real>, root: Seq<int>, held: Seq<bool>, i: int, k: int) -> real
    decreases k,
{
    if k <= 0 {
        0real
    } else if held[k - 1] && root[k - 1] == i {
        values_held(v, root, held, i, k - 1) + v[k - 1]
    } else {
        values_held(v, root, held, i, k - 1)
    }
}

proof fn lemma_values_update(
    v: Seq<real>,
    root: Seq<int>,
    held: Seq<bool>,
    i: int,
    k: int,
    o: int,
    x: real,
)
    requires
        0 <= k <= v.len(),
        0 <= o < v.len(),
    ensures
        values_held(v.update(o, x), root, held, i, k) == values_held(v, root, held, i, k) + (if o < k
            && held[o] && root[o] == i {
            x - v[o]
        } else {
            0real
        }),
    decreases k,
{
    if k > 0 {
        lemma_values_update(v, root, held, i, k - 1, o, x);
    }
}

proof fn lemma_values_drop(
    v: Seq<real>,
    root: Seq<int>,
    held: Seq<bool>,
    i: int,
    k: int,
    g: int,
)
    requires
        0 <= k <= held.len(),
        0 <= g < held.len(),
    ensures
        values_held(v, root, held.update(g, false), i, k) == values_held(v, root, held, i, k) - (
        if g < k && held[g] && root[g] == i {
            v[g]
        } else {
            0real
        }),
    decreases k,
{
    if k > 0 {
        lemma_values_drop(v, root, held, i, k - 1, g);
    }
}

proof fn lemma_values_stay(v: Seq<real>, swap: SwapData, j: int)
    requires
        0 <= j <= swap.send_indices@.len(),
        forall|k: int|
            0 <= k < swap.send_indices@.len() ==> (#[trigger] swap.send_indices@[k])
                < swap.recv_start,
        swap.recv_start <= v.len(),
    ensures
        values_returned(v, swap, j).len() == v.len(),
        forall|x: int|
            swap.recv_start <= x < v.len() ==> #[trigger] values_returned(v, swap, j)[x] == v[x],
    decreases j,
{
    if j > 0 {
        lemma_values_stay(v, swap, j - 1);
        assert(swap.send_indices@[j - 1] < swap.recv_start);
    }
}

proof fn lemma_swap_gives(
    v: Seq<real>,
    root: Seq<int>,
    held: Seq<bool>,
    swap: SwapData,
    i: int,
    j: int,
)
    requires
        0 <= j <= swap.send_indices@.len(),
        v.len() == held.len(),
        swap.recv_start + swap.send_indices@.len() <= v.len(),
        forall|k: int|
            0 <= k < swap.send_indices@.len() ==> {
                let o = #[trigger] swap.send_indices@[k] as int;
                &&& o < swap.recv_start
                &&& held[o]
                &&& held[swap.recv_start + k]
                &&& root[swap.recv_start + k] == root[o]
            },
    ensures
        values_held(
            values_returned(v, swap, j),
            root,
            held_returned(held, swap, j),
            i,
            v.len() as int,
        ) == values_held(v, root, held, i, v.len() as int),
    decreases j,
{
    if j > 0 {
        let n: int = v.len() as int;
        let (o, g): (int, int) = (swap.send_indices@[j - 1] as int, swap.recv_start + j - 1);
        let w: Seq<real> = values_returned(v, swap, j - 1);
        let h: Seq<bool> = held_returned(held, swap, j - 1);
        lemma_swap_gives(v, root, held, swap, i, j - 1);
        lemma_values_stay(v, swap, j - 1);
        lemma_held_returned(held, swap, j - 1);
        let x: real = w[o] + v[g];
        lemma_values_update(w, root, h, i, n, o, x);
        lemma_values_drop(w.update(o, x), root, h, i, n, g);
        assert(w.update(o, x)[g] == v[g]);
        assert(h[o] && h[g]);
    }
}

proof fn lemma_pass_gives(
    v: Seq<real>,
    swaps: Seq<SwapData>,
    rank: i32,
    nlocal: int,
    i: int,
    t: int,
)
    requires
        in_order(swaps, rank, nlocal, v.len() as int),
        0 <= t <= swaps.len(),
    ensures
        ({
            let n = v.len() as int;
            let root = roots(swaps, nlocal, swaps.len() as int);
            &&& values_back(v, swaps, rank, t).len() == n
            &&& values_held(
                values_back(v, swaps, rank, t),
                root,
                held_back(n, swaps, rank, t),
                i,
                n,
            ) == values_held(v, root, held_back(n, swaps, rank, 0), i, n)
        }),
    decreases t,
{
    if t > 0 {
        lemma_pass_gives(v, swaps, rank, nlocal, i, t - 1);
        let n: int = v.len() as int;
        let len: int = swaps.len() as int;
        let root: Seq<int> = roots(swaps, nlocal, len);
        let m: int = visited(len, t - 1);
        let swap: SwapData = swaps[m];
        let w: Seq<real> = values_back(v, swaps, rank, t - 1);
        let h: Seq<bool> = held_back(n, swaps, rank, t - 1);
        assert(0 <= m < len);
        assert(swap_ready(swap, n, rank));
        if to_itself(swap, rank) {
            lemma_held_back(n, swaps, rank, nlocal, t - 1);
            lemma_roots(swaps, rank, nlocal, n, len);
            assert forall|k: int| 0 <= k < swap.send_indices@.len() implies {
                let o = #[trigger] swap.send_indices@[k] as int;
                &&& o < swap.recv_start
                &&& h[o]
                &&& h[swap.recv_start + k]
                &&& root[swap.recv_start + k] == root[o]
            } by {
                lemma_both_hold(n, swaps, rank, nlocal, t - 1, k);
            }
            lemma_swap_gives(w, root, h, swap, i, swap.send_indices@.len() as int);
            lemma_values_stay(w, swap, swap.send_indices@.len() as int);
        }
    }
}

proof fn lemma_every_value_held(v: Seq<real>, root: Seq<int>, held: Seq<bool>, i: int, k: int)
    requires
        k <= held.len(),
        forall|x: int| 0 <= x < held.len() ==> #[trigger] held[x],
    ensures
        values_held(v, root, held, i, k) == sum_of_images(v, root, i, k),
    decreases k,
{
    if k > 0 {
        lemma_every_value_held(v, root, held, i, k - 1);
    }
}

proof fn lemma_only_local_value(
    v: Seq<real>,
    root: Seq<int>,
    held: Seq<bool>,
    nlocal: int,
    i: int,
    k: int,
)
    requires
        0 <= i < nlocal <= held.len(),
        0 <= k <= held.len(),
        forall|x: int| 0 <= x < held.len() ==> #[trigger] held[x] == (x < nlocal),
        forall|x: int| 0 <= x < nlocal ==> #[trigger] root[x] == x,
    ensures
        values_held(v, root, held, i, k) == if k > i {
            v[i]
        } else {
            0real
        },
    decreases k,
{
    if k > 0 {
        lemma_only_local_value(v, root, held, nlocal, i, k - 1);
    }
}

/// Values that travel back in a reverse pass come home once each: a local atom ends with
/// the sum over itself and all its images.
pub proof fn images_return_their_values_once(
    v: Seq<real>,
    swaps: Seq<SwapData>,
    rank: i32,
    nlocal: int,
    i: int,
)
    requires
        in_order(swaps, rank, nlocal, v.len() as int),
        0 <= i < nlocal,
    ensures
        values_back(v, swaps, rank, swaps.len() as int)[i] == sum_of_images(
            v,
            roots(swaps, nlocal, swaps.len() as int),
            i,
            v.len() as int,
        ),
{
    let n: int = v.len() as int;
    let len: int = swaps.len() as int;
    let root: Seq<int> = roots(swaps, nlocal, len);
    let held: Seq<bool> = held_back(n, swaps, rank, len);
    lemma_pass_gives(v, swaps, rank, nlocal, i, len);
    lemma_roots(swaps, rank, nlocal, n, len);
    lemma_held_back(n, swaps, rank, nlocal, len);
    assert forall|x: int| 0 <= x < held.len() implies #[trigger] held[x] == (x < nlocal) by {
        lemma_locals_hold(n, swaps, rank, nlocal, x);
    }
    lemma_every_value_held(v, root, held_back(n, swaps, rank, 0), i, n);
    lemma_only_local_value(values_back(v, swaps, rank, len), root, held, nlocal, i, n);
}

/// Value `j` of column `c` in every row.
pub open spec fn column_values(shape: Seq<Field>, rows: Seq<Seq<Scalar>>, c: int, j: int) -> Seq<real> {
    Seq::new(rows.len(), |x: int| num(part(shape, rows[x], c)[j]))
}

/// Every row is as long as the columns together.
pub open spec fn whole_rows(shape: Seq<Field>, rows: Seq<Seq<Scalar>>) -> bool {
    forall|x: int| 0 <= x < rows.len() ==> (#[trigger] rows[x]).len() == record_size(shape)
}

/// The additions to value `j` of column `c` in one swap are exact.
pub open spec fn exact_row_swap<F: Fn(Op, Scalar, Scalar, Scalar) -> Scalar>(
    ar: F,
    store: ColumnStore,
    rows: Seq<Seq<Scalar>>,
    swap: SwapData,
    c: int,
    j: int,
) -> bool {
    forall|k: int|
        0 <= k < swap.send_indices@.len() ==> exact_sum(
            ar,
            part(
                store.shape(),
                rows_returned(ar, store, rows, swap, k)[#[trigger] swap.send_indices@[k] as int],
                c,
            )[j],
            part(store.shape(), rows[swap.recv_start + k], c)[j],
        )
}

/// One swap does to a column that travels back what it does to plain values, and nothing
/// to any other column.
proof fn lemma_rows_as_values<F: Fn(Op, Scalar, Scalar, Scalar) -> Scalar>(
    ar: F,
    store: ColumnStore,
    rows: Seq<Seq<Scalar>>,
    swap: SwapData,
    c: int,
    j: int,
    k: int,
)
    requires
        0 <= c < store.shape().len(),
        0 <= j < store.shape()[c].width,
        whole_rows(store.shape(), rows),
        0 <= k <= swap.send_indices@.len(),
        swap.recv_start + swap.send_indices@.len() <= rows.len(),
        forall|m: int|
            0 <= m < swap.send_indices@.len() ==> (#[trigger] swap.send_indices@[m])
                < swap.recv_start,
        store.shape()[c].reverse ==> exact_row_swap(ar, store, rows, swap, c, j),
    ensures
        rows_returned(ar, store, rows, swap, k).len() == rows.len(),
        whole_rows(store.shape(), rows_returned(ar, store, rows, swap, k)),
        column_values(store.shape(), rows_returned(ar, store, rows, swap, k), c, j) == if store.shape()[c].reverse {
            values_returned(column_values(store.shape(), rows, c, j), swap, k)
        } else {
            column_values(store.shape(), rows, c, j)
        },
    decreases k,
{
    let shape: Seq<Field> = store.shape();
    if k > 0 {
        lemma_rows_as_values(ar, store, rows, swap, c, j, k - 1);
        let r: Seq<Seq<Scalar>> = rows_returned(ar, store, rows, swap, k - 1);
        let o: int = swap.send_indices@[k - 1] as int;
        let g: int = swap.recv_start + k - 1;
        assert(r[o].len() == record_size(shape));
        assert(rows[g].len() == record_size(shape));
        reverse_messages_add_the_ghosts_columns(shape, r[o], rows[g], summing(ar), c, j);
        let now: Seq<Seq<Scalar>> = rows_returned(ar, store, rows, swap, k);
        assert(now == r.update(
            o,
            ColumnStore::with_reverse(
                shape,
                r[o],
                ColumnStore::reverse_part(shape, rows[g]),
                summing(ar),
            ),
        ));
        let v: Seq<real> = column_values(shape, rows, c, j);
        let before: Seq<real> = column_values(shape, r, c, j);
        if shape[c].reverse {
            let w: Seq<real> = values_returned(v, swap, k - 1);
            assert(swap.send_indices@[k - 1] == o);
            assert(num(part(shape, now[o], c)[j]) == w[o] + v[g]);
            assert(column_values(shape, now, c, j) =~= w.update(o, w[o] + v[g]));
        } else {
            assert(column_values(shape, now, c, j) =~= before);
        }
    }
}

/// Every addition to value `j` of column `c` in a reverse pass is exact.
pub open spec fn exact_row_returns<F: Fn(Op, Scalar, Scalar, Scalar) -> Scalar>(
    ar: F,
    store: ColumnStore,
    swaps: Seq<SwapData>,
    rank: i32,
    c: int,
    j: int,
) -> bool {
    forall|t: int|
        0 <= t < swaps.len() ==> exact_row_swap(
            ar,
            store,
            #[trigger] rows_back(ar, store, swaps, rank, t),
            swaps[visited(swaps.len() as int, t)],
            c,
            j,
        )
}

proof fn lemma_pass_as_values<F: Fn(Op, Scalar, Scalar, Scalar) -> Scalar>(
    ar: F,
    store: ColumnStore,
    swaps: Seq<SwapData>,
    rank: i32,
    nlocal: int,
    c: int,
    j: int,
    t: int,
)
    requires
        0 <= c < store.shape().len(),
        0 <= j < store.shape()[c].width,
        whole_rows(store.shape(), store.rows()),
        in_order(swaps, rank, nlocal, store.rows().len() as int),
        store.shape()[c].reverse ==> exact_row_returns(ar, store, swaps, rank, c, j),
        0 <= t <= swaps.len(),
    ensures
        rows_back(ar, store, swaps, rank, t).len() == store.rows().len(),
        whole_rows(store.shape(), rows_back(ar, store, swaps, rank, t)),
        column_values(store.shape(), rows_back(ar, store, swaps, rank, t), c, j) == if store.shape()[c].reverse {
            values_back(column_values(store.shape(), store.rows(), c, j), swaps, rank, t)
        } else {
            column_values(store.shape(), store.rows(), c, j)
        },
    decreases t,
{
    if t > 0 {
        lemma_pass_as_values(ar, store, swaps, rank, nlocal, c, j, t - 1);
        let rows: Seq<Seq<Scalar>> = rows_back(ar, store, swaps, rank, t - 1);
        let m: int = visited(swaps.len() as int, t - 1);
        let swap: SwapData = swaps[m];
        assert(0 <= m < swaps.len());
        assert(swap_ready(swap, rows.len() as int, rank));
        if to_itself(swap, rank) {
            if store.shape()[c].reverse {
                assert(exact_row_swap(ar, store, rows, swap, c, j));
            }
            lemma_rows_as_values(
                ar,
                store,
                rows,
                swap,
                c,
                j,
                swap.send_indices@.len() as int,
            );
        }
    }
}

/// After a reverse pass a local atom holds in every column that travels back the sum over
/// itself and all its images, each counted once, and in every other column what it held.
pub proof fn images_return_their_columns_once<F: Fn(Op, Scalar, Scalar, Scalar) -> Scalar>(
    ar: F,
    store: ColumnStore,
    swaps: Seq<SwapData>,
    rank: i32,
    nlocal: int,
    i: int,
    c: int,
    j: int,
)
    requires
        0 <= c < store.shape().len(),
        0 <= j < store.shape()[c].width,
        whole_rows(store.shape(), store.rows()),
        in_order(swaps, rank, nlocal, store.rows().len() as int),
        store.shape()[c].reverse ==> exact_row_returns(ar, store, swaps, rank, c, j),
        0 <= i < nlocal,
    ensures
        ({
            let all = swaps.len() as int;
            let shape = store.shape();
            let before = column_values(shape, store.rows(), c, j);
            let after = num(part(shape, rows_back(ar, store, swaps, rank, all)[i], c)[j]);
            &&& shape[c].reverse ==> after == sum_of_images(
                before,
                roots(swaps, nlocal, all),
                i,
                before.len() as int,
            )
            &&& !shape[c].reverse ==> after == before[i]
        }),
{
    let all: int = swaps.len() as int;
    let shape: Seq<Field> = store.shape();
    let before: Seq<real> = column_values(shape, store.rows(), c, j);
    lemma_pass_as_values(ar, store, swaps, rank, nlocal, c, j, all);
    let after: Seq<real> = column_values(shape, rows_back(ar, store, swaps, rank, all), c, j);
    assert(after[i] == num(part(shape, rows_back(ar, store, swaps, rank, all)[i], c)[j]));
    if shape[c].reverse {
        images_return_their_values_once(before, swaps, rank, nlocal, i);
    }
}

} // verus!
