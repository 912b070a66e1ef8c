//! The resident loop: in which order the kernels of a run are dispatched.

use crate::device::{groups_for, workgroups};
use vstd::prelude::*;

verus! {

/// A kernel of the resident loop. The hooks and the auxiliary degrees of freedom
/// are numbered in the order of registration.
#[derive(Clone, Copy, PartialEq, Eq, Structural, Debug)]
pub enum Kernel {
    ClearCells,
    AssignCells,
    PrefixSum,
    Scatter,
    SortCells,
    SeedGravity,
    IntegrateInitial,
    IntegrateFinal,
    AuxKick(usize),
    /// A force hook, which advances the contact history.
    Hook(usize),
    /// A force hook that leaves the contact history as it is.
    HookPrime(usize),
}

/// A kernel and the workgroups that it is dispatched with. A hook chooses its
/// own number of workgroups; for it `groups` is 0.
#[derive(Clone, Copy, PartialEq, Eq, Structural, Debug)]
pub struct Dispatch {
    pub kernel: Kernel,
    pub groups: u32,
}

/// What the order depends on: the atoms, the cells, and what was registered.
#[derive(Clone, Copy)]
pub struct ResidentLoop {
    pub n: u32,
    pub total_cells: u32,
    pub aux: usize,
    pub hooks: usize,
}

pub open spec fn dispatched(kernel: Kernel, groups: int) -> Dispatch {
    Dispatch { kernel, groups: groups as u32 }
}

impl ResidentLoop {
    /// Sorting the atoms into cells: the atoms of a cell end in a fixed order.
    pub open spec fn binning(&self) -> Seq<Dispatch> {
        let cells = groups_for(self.total_cells as int);
        let atoms = groups_for(self.n as int);
        seq![
            dispatched(Kernel::ClearCells, cells),
            dispatched(Kernel::AssignCells, atoms),
            dispatched(Kernel::PrefixSum, 1),
            dispatched(Kernel::Scatter, atoms),
            dispatched(Kernel::SortCells, cells),
        ]
    }

    /// A half kick of every auxiliary degree of freedom.
    pub open spec fn aux_kicks(&self) -> Seq<Dispatch> {
        Seq::new(
            self.aux as nat,
            |k: int| dispatched(Kernel::AuxKick(k as usize), groups_for(self.n as int)),
        )
    }

    /// Every force hook, in the order of registration.
    pub open spec fn all_hooks(&self, prime: bool) -> Seq<Dispatch> {
        Seq::new(
            self.hooks as nat,
            |k: int|
                dispatched(
                    if prime {
                        Kernel::HookPrime(k as usize)
                    } else {
                        Kernel::Hook(k as usize)
                    },
                    0,
                ),
        )
    }

    pub open spec fn one(&self, kernel: Kernel) -> Seq<Dispatch> {
        seq![dispatched(kernel, groups_for(self.n as int))]
    }

    /// The forces at the current positions.
    pub open spec fn force(&self, prime: bool) -> Seq<Dispatch> {
        self.binning() + self.one(Kernel::SeedGravity) + self.all_hooks(prime)
    }

    /// One step: half kick and drift, new forces, half kick.
    pub open spec fn step(&self) -> Seq<Dispatch> {
        self.one(Kernel::IntegrateInitial) + self.aux_kicks() + self.binning() + self.all_hooks(false)
            + self.one(Kernel::IntegrateFinal) + self.aux_kicks()
    }

    /// `steps` steps.
    pub open spec fn steps(&self, steps: nat) -> Seq<Dispatch>
        decreases steps,
    {
        if steps == 0 {
            seq![]
        } else {
            self.steps((steps - 1) as nat) + self.step()
        }
    }

    /// A run that starts by evaluating the forces.
    pub open spec fn run(&self, steps: nat) -> Seq<Dispatch> {
        self.force(true) + self.steps(steps)
    }

    fn push_binning(&self, out: &mut Vec<Dispatch>)
        ensures
            final(out)@ == old(out)@ + self.binning(),
    {
        let cells: u32 = workgroups(self.total_cells);
        let atoms: u32 = workgroups(self.n);
        out.push(Dispatch { kernel: Kernel::ClearCells, groups: cells });
        out.push(Dispatch { kernel: Kernel::AssignCells, groups: atoms });
        out.push(Dispatch { kernel: Kernel::PrefixSum, groups: 1 });
        out.push(Dispatch { kernel: Kernel::Scatter, groups: atoms });
        out.push(Dispatch { kernel: Kernel::SortCells, groups: cells });
        assert(out@ =~= old(out)@ + self.binning());
    }

    fn push_one(&self, kernel: Kernel, out: &mut Vec<Dispatch>)
        ensures
            final(out)@ == old(out)@ + self.one(kernel),
    {
        out.push(Dispatch { kernel, groups: workgroups(self.n) });
        assert(out@ =~= old(out)@ + self.one(kernel));
    }

    fn push_aux(&self, out: &mut Vec<Dispatch>)
        ensures
            final(out)@ == old(out)@ + self.aux_kicks(),
    {
        let groups: u32 = workgroups(self.n);
        let mut k: usize = 0;
        while k < self.aux
            invariant
                k <= self.aux,
                groups == groups_for(self.n as int),
                out@ =~= old(out)@ + self.aux_kicks().take(k as int),
            decreases self.aux - k,
        {
            out.push(Dispatch { kernel: Kernel::AuxKick(k), groups });
            k = k + 1;
        }
    }

    fn push_hooks(&self, prime: bool, out: &mut Vec<Dispatch>)
        ensures
            final(out)@ == old(out)@ + self.all_hooks(prime),
    {
        let mut k: usize = 0;
        while k < self.hooks
            invariant
                k <= self.hooks,
                out@ =~= old(out)@ + self.all_hooks(prime).take(k as int),
            decreases self.hooks - k,
        {
            let kernel: Kernel = if prime {
                Kernel::HookPrime(k)
            } else {
                Kernel::Hook(k)
            };
            out.push(Dispatch { kernel, groups: 0 });
            k = k + 1;
        }
    }

    /// Sorting the atoms into cells.
    pub fn record_binning(&self) -> (r: Vec<Dispatch>)
        ensures
            r@ == self.binning(),
    {
        let mut out: Vec<Dispatch> = Vec::new();
        self.push_binning(&mut out);
        assert(out@ =~= self.binning());
        out
    }

    /// The forces at the current positions. With `prime` the hooks leave the
    /// contact history as it is.
    pub fn record_force(&self, prime: bool) -> (r: Vec<Dispatch>)
        ensures
            r@ == self.force(prime),
    {
        let mut out: Vec<Dispatch> = Vec::new();
        self.push_binning(&mut out);
        self.push_one(Kernel::SeedGravity, &mut out);
        self.push_hooks(prime, &mut out);
        assert(out@ =~= self.force(prime));
        out
    }

    /// One step.
    pub fn record_step(&self) -> (r: Vec<Dispatch>)
        ensures
            r@ == self.step(),
    {
        let mut out: Vec<Dispatch> = Vec::new();
        self.push_one(Kernel::IntegrateInitial, &mut out);
        self.push_aux(&mut out);
        self.push_binning(&mut out);
        self.push_hooks(false, &mut out);
        self.push_one(Kernel::IntegrateFinal, &mut out);
        self.push_aux(&mut out);
        assert(out@ =~= self.step());
        out
    }
}

/// A run that is continued is one uninterrupted run: after `a` steps, `b` more
/// steps without a new start dispatch what `a + b` steps dispatch.
pub proof fn continued_run_is_one_run(l: ResidentLoop, a: nat, b: nat)
    ensures
        l.run(a) + l.steps(b) == l.run(a + b),
    decreases b,
{
    if b == 0 {
        assert(l.run(a) + l.steps(0) =~= l.run(a));
    } else {
        continued_run_is_one_run(l, a, (b - 1) as nat);
        let before: nat = (b - 1) as nat;
        assert(l.steps(a + b) == l.steps(a + before) + l.step());
        assert(l.run(a) + l.steps(b) =~= (l.run(a) + l.steps(before)) + l.step());
        assert(l.run(a + before) + l.step() =~= l.run(a + b));
    }
}

/// What a device holds after the dispatches, one after the other, each of which
/// has its effect on what the device held before.
pub open spec fn executed<S>(effect: spec_fn(S, Dispatch) -> S, start: S, work: Seq<Dispatch>) -> S
    decreases work.len(),
{
    if work.len() == 0 {
        start
    } else {
        effect(executed(effect, start, work.drop_last()), work.last())
    }
}

/// Work that is done in two parts is done as a whole.
pub proof fn work_can_be_split<S>(
    effect: spec_fn(S, Dispatch) -> S,
    start: S,
    first: Seq<Dispatch>,
    second: Seq<Dispatch>,
)
    ensures
        executed(effect, executed(effect, start, first), second) == executed(
            effect,
            start,
            first + second,
        ),
    decreases second.len(),
{
    if second.len() == 0 {
        assert(first + second =~= first);
    } else {
        work_can_be_split(effect, start, first, second.drop_last());
        assert((first + second).drop_last() =~= first + second.drop_last());
        assert((first + second).last() == second.last());
    }
}

/// A run that is continued ends where one uninterrupted run ends: whatever the
/// kernels do, after `a` steps and `b` more the device holds what it holds after
/// `a + b` steps.
pub proof fn continued_run_ends_alike<S>(
    l: ResidentLoop,
    effect: spec_fn(S, Dispatch) -> S,
    start: S,
    a: nat,
    b: nat,
)
    ensures
        executed(effect, executed(effect, start, l.run(a)), l.steps(b)) == executed(
            effect,
            start,
            l.run(a + b),
        ),
{
    continued_run_is_one_run(l, a, b);
    work_can_be_split(effect, start, l.run(a), l.steps(b));
}

/// The force is evaluated once per step: each step runs every hook once, and
/// none of its dispatches primes.
pub proof fn a_step_runs_each_hook_once(l: ResidentLoop, k: usize)
    requires
        k < l.hooks,
    ensures
        ({
            let at = 1 + l.aux + 5 + k;
            &&& l.step()[at].kernel == Kernel::Hook(k)
            &&& forall|j: int|
                0 <= j < l.step().len() && (#[trigger] l.step()[j]).kernel == Kernel::Hook(k) ==> j == at
            &&& forall|j: int| 0 <= j < l.step().len() ==> !((#[trigger] l.step()[j]).kernel is HookPrime)
        }),
{
    let first: int = 1 + l.aux;
    let hooks: int = first + 5;
    let last: int = hooks + l.hooks;
    let s: Seq<Dispatch> = l.step();
    assert(s.len() == last + 1 + l.aux);
    assert forall|j: int| 0 <= j < s.len() implies (#[trigger] s[j]).kernel == (if j == 0 {
        Kernel::IntegrateInitial
    } else if j < first {
        Kernel::AuxKick((j - 1) as usize)
    } else if j < hooks {
        l.binning()[j - first].kernel
    } else if j < last {
        Kernel::Hook((j - hooks) as usize)
    } else if j == last {
        Kernel::IntegrateFinal
    } else {
        Kernel::AuxKick((j - last - 1) as usize)
    }) by {}
    assert forall|j: int| 0 <= j < 5 implies !((#[trigger] l.binning()[j]).kernel is Hook) && !(
    l.binning()[j].kernel is HookPrime) by {}
}

/// Sorting clears the cells before it counts the atoms, adds up the counts before the
/// atoms are put in place, and orders each cell at last.
pub proof fn sorting_is_in_order(l: ResidentLoop)
    ensures
        l.binning().len() == 5,
        l.binning()[0].kernel == Kernel::ClearCells,
        l.binning()[1].kernel == Kernel::AssignCells,
        l.binning()[2].kernel == Kernel::PrefixSum,
        l.binning()[3].kernel == Kernel::Scatter,
        l.binning()[4].kernel == Kernel::SortCells,
        l.binning()[0].groups == groups_for(l.total_cells as int) as u32,
        l.binning()[1].groups == groups_for(l.n as int) as u32,
        l.binning()[3].groups == groups_for(l.n as int) as u32,
        l.binning()[4].groups == groups_for(l.total_cells as int) as u32,
{
}

/// A step drifts before it sorts, sorts before it evaluates forces, and evaluates them
/// before the second half kick; every auxiliary degree of freedom is kicked once in each
/// half.
pub proof fn a_step_is_in_order(l: ResidentLoop, k: int)
    ensures
        ({
            let (s, a, h) = (l.step(), l.aux as int, l.hooks as int);
            &&& s.len() == 2 + 2 * a + 5 + h
            &&& s[0].kernel == Kernel::IntegrateInitial
            &&& 0 <= k < a ==> s[1 + k].kernel == Kernel::AuxKick(k as usize)
            &&& 0 <= k < 5 ==> s[1 + a + k] == l.binning()[k]
            &&& 0 <= k < h ==> s[6 + a + k].kernel == Kernel::Hook(k as usize)
            &&& s[6 + a + h].kernel == Kernel::IntegrateFinal
            &&& 0 <= k < a ==> s[7 + a + h + k].kernel == Kernel::AuxKick(k as usize)
        }),
{
}

/// The forces are evaluated on sorted atoms, and gravity comes before the hooks, which
/// add to it.
pub proof fn forces_start_from_gravity(l: ResidentLoop, prime: bool, k: int)
    ensures
        ({
            let f = l.force(prime);
            &&& f.len() == 6 + l.hooks
            &&& 0 <= k < 5 ==> f[k] == l.binning()[k]
            &&& f[5].kernel == Kernel::SeedGravity
            &&& 0 <= k < l.hooks ==> f[6 + k].kernel == if prime {
                Kernel::HookPrime(k as usize)
            } else {
                Kernel::Hook(k as usize)
            }
        }),
{
}

} // verus!
