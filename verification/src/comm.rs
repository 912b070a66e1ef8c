//! The grid of processes and the swaps that keep ghosts up to date.

use crate::exact::{lemma_constants, num};
use crate::scalar::{Scalar, Vec3};
use vstd::prelude::*;

verus! {

/// The number of processes along each axis.
#[derive(Clone, Copy, Debug)]
pub struct CommConfig {
    pub processors_x: i32,
    pub processors_y: i32,
    pub processors_z: i32,
}

impl Default for CommConfig {
    fn default() -> (r: Self)
        ensures
            r.processors_x == 1,
            r.processors_y == 1,
            r.processors_z == 1,
    {
        CommConfig { processors_x: 1, processors_y: 1, processors_z: 1 }
    }
}

/// Message buffers of one swap.
pub struct SwapScratch {
    pub send: Vec<Scalar>,
    pub recv: Vec<Scalar>,
}

impl Default for SwapScratch {
    fn default() -> (r: Self)
        ensures
            r.send@.len() == 0,
            r.recv@.len() == 0,
    {
        SwapScratch { send: Vec::new(), recv: Vec::new() }
    }
}

/// Message buffers that are kept from step to step.
pub struct CommBuffers {
    pub border_send_buff: Vec<Scalar>,
    pub exchange_buffs: Vec<Vec<Scalar>>,
    pub recv_buff: Vec<Scalar>,
    pub reverse_send_buff: Vec<Scalar>,
    pub forward_scratch: Vec<SwapScratch>,
    pub reverse_scratch: Vec<SwapScratch>,
    pub border_recv_buff: Vec<Scalar>,
}

impl Default for CommBuffers {
    fn default() -> (r: Self)
        ensures
            r.border_send_buff@.len() == 0,
            r.exchange_buffs@.len() == 0,
            r.recv_buff@.len() == 0,
            r.reverse_send_buff@.len() == 0,
            r.forward_scratch@.len() == 0,
            r.reverse_scratch@.len() == 0,
            r.border_recv_buff@.len() == 0,
    {
        CommBuffers {
            border_send_buff: Vec::new(),
            exchange_buffs: Vec::new(),
            recv_buff: Vec::new(),
            reverse_send_buff: Vec::new(),
            forward_scratch: Vec::new(),
            reverse_scratch: Vec::new(),
            border_recv_buff: Vec::new(),
        }
    }
}

/// One swap of ghosts with a neighbouring process: which atoms were sent, and
/// which ghosts came back.
pub struct SwapData {
    pub send_indices: Vec<usize>,
    pub recv_start: usize,
    pub recv_count: usize,
    pub to_proc: i32,
    pub from_proc: i32,
    pub periodic_offset: Vec3,
}

/// The neighbours of this process and the swaps of the last rebuild.
///
/// `swap_directions[0]` names the neighbours below, `swap_directions[1]` those
/// above, with -1 where there is none.
pub struct CommTopology {
    pub swap_directions: [[i32; 3]; 2],
    pub periodic_swap: [[Scalar; 3]; 2],
    pub swap_data: Vec<SwapData>,
    pub maxneed: [i32; 3],
}

impl CommTopology {
    /// No neighbours and no swaps.
    pub fn new() -> (r: CommTopology)
        ensures
            forall|s: int, d: int|
                0 <= s < 2 && 0 <= d < 3 ==> #[trigger] r.swap_directions[s][d] == -1,
            forall|s: int, d: int|
                0 <= s < 2 && 0 <= d < 3 ==> #[trigger] r.periodic_swap[s][d] == Scalar::zero(),
            r.swap_data@.len() == 0,
            r.maxneed[0] == 0 && r.maxneed[1] == 0 && r.maxneed[2] == 0,
    {
        let zero: Scalar = Scalar::zero();
        CommTopology {
            swap_directions: [[-1, -1, -1], [-1, -1, -1]],
            periodic_swap: [[zero, zero, zero], [zero, zero, zero]],
            swap_data: Vec::new(),
            maxneed: [0, 0, 0],
        }
    }
}

/// A grid with at least one process along each axis, few enough to be counted.
pub open spec fn grid_valid(decomp: [i32; 3]) -> bool {
    &&& decomp[0] >= 1 && decomp[1] >= 1 && decomp[2] >= 1
    &&& decomp[0] * (decomp[1] * decomp[2]) <= i32::MAX
}

/// `pos` is a place of the grid.
pub open spec fn in_grid(pos: Seq<int>, decomp: [i32; 3]) -> bool {
    &&& pos.len() == 3
    &&& 0 <= pos[0] < decomp[0]
    &&& 0 <= pos[1] < decomp[1]
    &&& 0 <= pos[2] < decomp[2]
}

/// The three coordinates of a place.
pub open spec fn place(pos: [i32; 3]) -> Seq<int> {
    seq![pos[0] as int, pos[1] as int, pos[2] as int]
}

/// The rank of the process at a place: places are numbered row by row.
pub open spec fn rank_of(pos: Seq<int>, decomp: [i32; 3]) -> int {
    pos[0] * (decomp[1] * decomp[2]) + pos[1] * decomp[2] + pos[2]
}

/// The place of the process with a rank.
pub open spec fn place_of(rank: int, decomp: [i32; 3]) -> Seq<int> {
    seq![
        rank / (decomp[1] * decomp[2]),
        (rank / decomp[2] as int) % decomp[1] as int,
        rank % decomp[2] as int,
    ]
}

proof fn lemma_rank_bound(pos: Seq<int>, decomp: [i32; 3])
    requires
        grid_valid(decomp),
        in_grid(pos, decomp),
    ensures
        0 <= rank_of(pos, decomp) < decomp[0] * (decomp[1] * decomp[2]),
        0 <= pos[0] * decomp[1] <= i32::MAX,
        0 <= pos[0] * (decomp[1] * decomp[2]) <= i32::MAX,
        0 <= pos[1] * decomp[2],
        pos[1] * decomp[2] + decomp[2] <= decomp[1] * decomp[2],
        pos[0] * decomp[1] * decomp[2] == pos[0] * (decomp[1] * decomp[2]),
{
    let (x, y): (int, int) = (pos[0], pos[1]);
    let (a, b, c): (int, int, int) = (decomp[0] as int, decomp[1] as int, decomp[2] as int);
    let m: int = b * c;
    assert(0 <= y * c && y * c + c <= m) by (nonlinear_arith)
        requires
            0 <= y < b,
            c >= 1,
            m == b * c,
    ;
    assert(0 <= x * m && x * m + m <= a * m) by (nonlinear_arith)
        requires
            0 <= x < a,
            m >= 0,
    ;
    assert(0 <= x * b <= x * m && x * b * c == x * (b * c)) by (nonlinear_arith)
        requires
            0 <= x,
            b >= 1,
            c >= 1,
            m == b * c,
    ;
}

/// Every rank has one place: the place's rank is the rank again.
pub proof fn rank_round_trip(rank: int, decomp: [i32; 3])
    requires
        grid_valid(decomp),
        0 <= rank < decomp[0] * (decomp[1] * decomp[2]),
    ensures
        in_grid(place_of(rank, decomp), decomp),
        rank_of(place_of(rank, decomp), decomp) == rank,
{
    let (a, b, c): (int, int, int) = (decomp[0] as int, decomp[1] as int, decomp[2] as int);
    let m: int = b * c;
    assert(m >= 1) by (nonlinear_arith)
        requires
            m == b * c,
            b >= 1,
            c >= 1,
    ;
    let q: int = rank / c;
    vstd::arithmetic::div_mod::lemma_fundamental_div_mod(rank, c);
    vstd::arithmetic::div_mod::lemma_fundamental_div_mod(q, b);
    vstd::arithmetic::div_mod::lemma_mod_bound(rank, c);
    vstd::arithmetic::div_mod::lemma_mod_bound(q, b);
    vstd::arithmetic::div_mod::lemma_div_pos_is_pos(rank, c);
    vstd::arithmetic::div_mod::lemma_div_pos_is_pos(rank, m);
    vstd::arithmetic::div_mod::lemma_div_denominator(rank, c, b);
    assert(c * b == m) by (nonlinear_arith)
        requires
            m == b * c,
    ;
    let x: int = rank / m;
    assert(q / b == x);
    assert(x < a) by {
        assert(a * m == m * a) by (nonlinear_arith);
        vstd::arithmetic::div_mod::lemma_multiply_divide_lt(rank, m, a);
    }
    assert(x * m + (q % b) * c + rank % c == rank) by (nonlinear_arith)
        requires
            rank == c * q + rank % c,
            q == b * x + q % b,
            m == b * c,
    ;
}

/// Every place has one rank: the rank's place is the place again.
pub proof fn place_round_trip(pos: Seq<int>, decomp: [i32; 3])
    requires
        grid_valid(decomp),
        in_grid(pos, decomp),
    ensures
        0 <= rank_of(pos, decomp) < decomp[0] * (decomp[1] * decomp[2]),
        place_of(rank_of(pos, decomp), decomp) == pos,
{
    lemma_rank_bound(pos, decomp);
    let (x, y, z): (int, int, int) = (pos[0], pos[1], pos[2]);
    let (b, c): (int, int) = (decomp[1] as int, decomp[2] as int);
    let m: int = b * c;
    let r: int = rank_of(pos, decomp);
    assert(r == (x * b + y) * c + z) by (nonlinear_arith)
        requires
            r == x * (b * c) + y * c + z,
    ;
    vstd::arithmetic::div_mod::lemma_fundamental_div_mod_converse(r, c, x * b + y, z);
    vstd::arithmetic::div_mod::lemma_fundamental_div_mod_converse(x * b + y, b, x, y);
    assert(r == x * m + (y * c + z));
    assert(0 <= y * c + z < m);
    vstd::arithmetic::div_mod::lemma_fundamental_div_mod_converse(r, m, x, y * c + z);
    assert(place_of(r, decomp) =~= pos);
}

/// The rank of the process at a place.
pub fn pos_to_rank(pos: [i32; 3], decomp: [i32; 3]) -> (r: i32)
    requires
        grid_valid(decomp),
        in_grid(place(pos), decomp),
    ensures
        r == rank_of(place(pos), decomp),
{
    proof {
        lemma_rank_bound(place(pos), decomp);
    }
    pos[0] * decomp[1] * decomp[2] + pos[1] * decomp[2] + pos[2]
}

/// The grid of processes and this process's place in it.
pub struct ProcessorGrid {
    pub decomp: [i32; 3],
    pub position: [i32; 3],
}

/// Lays the processes out as configured; `None` where the grid does not have
/// one place for each process.
pub fn comm_read_input(config: &CommConfig, rank: i32, size: i32) -> (r: Option<ProcessorGrid>)
    requires
        0 <= rank < size,
        config.processors_x >= 1 && config.processors_y >= 1 && config.processors_z >= 1,
        config.processors_x * (config.processors_y * config.processors_z) <= i32::MAX,
    ensures
        r is Some <==> config.processors_x * (config.processors_y * config.processors_z) == size,
        r matches Some(g) ==> {
            &&& g.decomp[0] == config.processors_x
            &&& g.decomp[1] == config.processors_y
            &&& g.decomp[2] == config.processors_z
            &&& grid_valid(g.decomp)
            &&& place(g.position) == place_of(rank as int, g.decomp)
            &&& in_grid(place(g.position), g.decomp)
        },
{
    let (px, py, pz): (i32, i32, i32) = (
        config.processors_x,
        config.processors_y,
        config.processors_z,
    );
    proof {
        let (a, b, c): (int, int, int) = (px as int, py as int, pz as int);
        assert(0 <= a * b <= a * (b * c) && a * b * c == a * (b * c) && 1 <= b * c <= a * (b * c))
            by (nonlinear_arith)
            requires
                a >= 1,
                b >= 1,
                c >= 1,
        ;
    }
    let decomp: [i32; 3] = [px, py, pz];
    if px * py * pz != size {
        return None;
    }
    proof {
        rank_round_trip(rank as int, decomp);
    }
    let position: [i32; 3] = [rank / (py * pz), (rank / pz) % py, rank % pz];
    assert(place(position) =~= place_of(rank as int, decomp));
    Some(ProcessorGrid { decomp, position })
}

/// The place that is reached from `pos` by one step up (`swap` 1) or down
/// (`swap` 0) along axis `d`, and whether the step crosses the periodic face.
pub open spec fn step(pos: Seq<int>, decomp: [i32; 3], periodic: [bool; 3], d: int, swap: int) -> Option<
    (Seq<int>, bool),
> {
    if swap == 1 && pos[d] + 1 < decomp[d] {
        Some((pos.update(d, pos[d] + 1), false))
    } else if swap == 0 && pos[d] >= 1 {
        Some((pos.update(d, pos[d] - 1), false))
    } else if periodic[d] && swap == 1 {
        Some((pos.update(d, 0), true))
    } else if periodic[d] && swap == 0 {
        Some((pos.update(d, decomp[d] - 1), true))
    } else {
        None
    }
}

/// A step up and a step down undo each other, and both cross the periodic face or neither does.
pub proof fn steps_are_opposite(
    pos: Seq<int>,
    decomp: [i32; 3],
    periodic: [bool; 3],
    d: int,
    swap: int,
)
    requires
        in_grid(pos, decomp),
        0 <= d < 3,
        swap == 0 || swap == 1,
        step(pos, decomp, periodic, d, swap) is Some,
    ensures
        ({
            let (to, wraps) = step(pos, decomp, periodic, d, swap)->0;
            &&& in_grid(to, decomp)
            &&& step(to, decomp, periodic, d, 1 - swap) == Some((pos, wraps))
        }),
{
    let (to, wraps) = step(pos, decomp, periodic, d, swap)->0;
    let back = step(to, decomp, periodic, d, 1 - swap)->0;
    assert(back.0 =~= pos);
}

/// One entry of the topology after `comm_setup`.
pub open spec fn neighbor_set(
    old_topo: CommTopology,
    topo: CommTopology,
    decomp: [i32; 3],
    pos: Seq<int>,
    periodic: [bool; 3],
    d: int,
    swap: int,
) -> bool {
    match step(pos, decomp, periodic, d, swap) {
        Some((to, wraps)) => {
            &&& topo.swap_directions[swap][d] == rank_of(to, decomp)
            &&& topo.periodic_swap[swap][d] == if wraps {
                if swap == 1 {
                    Scalar::minus_one()
                } else {
                    Scalar::one()
                }
            } else {
                old_topo.periodic_swap[swap][d]
            }
        },
        None => {
            &&& topo.swap_directions[swap][d] == old_topo.swap_directions[swap][d]
            &&& topo.periodic_swap[swap][d] == old_topo.periodic_swap[swap][d]
        },
    }
}

/// The entries of axis `d` agree.
pub open spec fn same_axis(a: CommTopology, b: CommTopology, d: int) -> bool {
    &&& a.swap_directions[0][d] == b.swap_directions[0][d]
    &&& a.swap_directions[1][d] == b.swap_directions[1][d]
    &&& a.periodic_swap[0][d] == b.periodic_swap[0][d]
    &&& a.periodic_swap[1][d] == b.periodic_swap[1][d]
}

/// Finds the neighbours of the process at `pos`. Where there is none, the
/// entry is left as it is.
pub fn comm_setup(topo: &mut CommTopology, decomp: [i32; 3], pos: [i32; 3], periodic: [bool; 3])
    requires
        grid_valid(decomp),
        in_grid(place(pos), decomp),
    ensures
        forall|d: int, swap: int|
            0 <= d < 3 && (swap == 0 || swap == 1) ==> #[trigger] neighbor_set(
                *old(topo),
                *final(topo),
                decomp,
                place(pos),
                periodic,
                d,
                swap,
            ),
        final(topo).swap_data == old(topo).swap_data,
        final(topo).maxneed == old(topo).maxneed,
{
    let ghost at: Seq<int> = place(pos);
    let mut dim: usize = 0;
    while dim < 3
        invariant
            grid_valid(decomp),
            at == place(pos),
            in_grid(at, decomp),
            dim <= 3,
            topo.swap_data == old(topo).swap_data,
            topo.maxneed == old(topo).maxneed,
            forall|d: int, swap: int|
                0 <= d < dim && (swap == 0 || swap == 1) ==> #[trigger] neighbor_set(
                    *old(topo),
                    *topo,
                    decomp,
                    at,
                    periodic,
                    d,
                    swap,
                ),
            forall|d: int| dim <= d < 3 ==> #[trigger] same_axis(*old(topo), *topo, d),
        decreases 3 - dim,
    {
        let ghost mid: CommTopology = *topo;
        assert(same_axis(*old(topo), *topo, dim as int));
        if pos[dim] + 1 < decomp[dim] {
            let mut there: [i32; 3] = pos;
            there[dim] = pos[dim] + 1;
            assert(place(there) =~= at.update(dim as int, at[dim as int] + 1));
            topo.swap_directions[1][dim] = pos_to_rank(there, decomp);
        } else if periodic[dim] {
            let mut there: [i32; 3] = pos;
            there[dim] = 0;
            assert(place(there) =~= at.update(dim as int, 0));
            topo.swap_directions[1][dim] = pos_to_rank(there, decomp);
            topo.periodic_swap[1][dim] = Scalar::minus_one();
        }
        if pos[dim] >= 1 {
            let mut there: [i32; 3] = pos;
            there[dim] = pos[dim] - 1;
            assert(place(there) =~= at.update(dim as int, at[dim as int] - 1));
            topo.swap_directions[0][dim] = pos_to_rank(there, decomp);
        } else if periodic[dim] {
            let mut there: [i32; 3] = pos;
            there[dim] = decomp[dim] - 1;
            assert(place(there) =~= at.update(dim as int, decomp[dim as int] - 1));
            topo.swap_directions[0][dim] = pos_to_rank(there, decomp);
            topo.periodic_swap[0][dim] = Scalar::one();
        }
        proof {
            assert(neighbor_set(*old(topo), *topo, decomp, at, periodic, dim as int, 0));
            assert(neighbor_set(*old(topo), *topo, decomp, at, periodic, dim as int, 1));
            assert forall|d: int, swap: int|
                0 <= d < dim && (swap == 0 || swap == 1) implies #[trigger] neighbor_set(
                *old(topo),
                *topo,
                decomp,
                at,
                periodic,
                d,
                swap,
            ) by {
                assert(neighbor_set(*old(topo), mid, decomp, at, periodic, d, swap));
            }
            assert forall|d: int| dim < d < 3 implies #[trigger] same_axis(*old(topo), *topo, d) by {
                assert(same_axis(*old(topo), mid, d));
            }
        }
        dim = dim + 1;
    }
}

/// Two swaps of one round can share a message: both go to the same process and
/// come from the same process, neither of them this one.
pub open spec fn aggregatable(lo: SwapData, hi: SwapData, rank: i32) -> bool {
    &&& lo.to_proc != rank
    &&& lo.from_proc != rank
    &&& lo.to_proc != -1
    &&& lo.from_proc != -1
    &&& lo.to_proc == hi.to_proc
    &&& lo.from_proc == hi.from_proc
}

/// Whether two swaps of one round can share a message.
pub fn round_aggregatable(lo: &SwapData, hi: &SwapData, rank: i32) -> (r: bool)
    ensures
        r == aggregatable(*lo, *hi, rank),
{
    lo.to_proc != rank && lo.from_proc != rank && lo.to_proc != -1 && lo.from_proc != -1
        && lo.to_proc == hi.to_proc && lo.from_proc == hi.from_proc
}

/// The neighbour above a process is the next one along the axis, and the one below the
/// one before it, counted around where the axis is periodic; along the other axes it has
/// the same place. An atom that is sent on around the box is moved by the whole box: back
/// where it goes up, and on where it goes down.
pub proof fn neighbors_are_next_to_the_process(
    before: CommTopology,
    topo: CommTopology,
    decomp: [i32; 3],
    pos: Seq<int>,
    periodic: [bool; 3],
    d: int,
    swap: int,
)
    requires
        grid_valid(decomp),
        in_grid(pos, decomp),
        0 <= d < 3,
        swap == 0 || swap == 1,
        neighbor_set(before, topo, decomp, pos, periodic, d, swap),
    ensures
        ({
            let next = if swap == 1 {
                pos[d] + 1
            } else {
                pos[d] - 1
            };
            let n = decomp[d] as int;
            let there = place_of(topo.swap_directions[swap][d] as int, decomp);
            &&& 0 <= next < n ==> {
                &&& there == pos.update(d, next)
                &&& topo.periodic_swap[swap][d] == before.periodic_swap[swap][d]
            }
            &&& !(0 <= next < n) && periodic[d] ==> {
                &&& there == pos.update(d, next % n)
                &&& num(topo.periodic_swap[swap][d]) == (pos[d] - next) as real
            }
            &&& !(0 <= next < n) && !periodic[d] ==> {
                &&& topo.swap_directions[swap][d] == before.swap_directions[swap][d]
                &&& topo.periodic_swap[swap][d] == before.periodic_swap[swap][d]
            }
        }),
{
    lemma_constants();
    let n: int = decomp[d] as int;
    let next: int = if swap == 1 {
        pos[d] + 1
    } else {
        pos[d] - 1
    };
    if 0 <= next < n {
        place_round_trip(pos.update(d, next), decomp);
    } else if periodic[d] {
        if swap == 1 {
            assert(next == n);
            vstd::arithmetic::div_mod::lemma_mod_self_0(n);
            place_round_trip(pos.update(d, 0), decomp);
        } else {
            assert(next == -1);
            vstd::arithmetic::div_mod::lemma_fundamental_div_mod_converse(-1, n, -1, n - 1);
            place_round_trip(pos.update(d, n - 1), decomp);
        }
    }
}

} // verus!
