//! Energy, temperature and rates, where no operation rounds.

use crate::atom::{kinetic_upto, Atom};
use crate::exact::{
    exact_difference, exact_product, exact_quotient, exact_sum, is_num, lemma_constants,
    lemma_divided, lemma_mul_add, lemma_order, lemma_small_numbers, num,
};
use crate::group::Group;
use crate::scalar::{count_word, difference, product, sum, Op, Scalar, Vec3, FRACTION};
use crate::strain::counted_steps_are_counted;
use crate::text::{digits, rendered, Style};
use crate::thermo::{
    cell, column_totals, group_total, measures, step_rate, temperature, GroupTotal, Thermo,
    ThermoColumn, ThermoTotals,
};
use crate::vec3::dot_of;
use vstd::prelude::*;

verus! {

/// Atom `i` counts: no mask leaves it out.
pub open spec fn counts(mask: Option<Seq<bool>>, i: int) -> bool {
    match mask {
        None => true,
        Some(m) => m[i],
    }
}

/// Mass times squared velocity of the first `n` atoms that count, added up: twice their
/// kinetic energy.
pub open spec fn twice_energy(
    mass: Seq<Scalar>,
    vel: Seq<Vec3>,
    mask: Option<Seq<bool>>,
    n: int,
) -> real
    decreases n,
{
    if n <= 0 {
        0real
    } else if counts(mask, n - 1) {
        let (x, y, z) = (num(vel[n - 1][0]), num(vel[n - 1][1]), num(vel[n - 1][2]));
        twice_energy(mass, vel, mask, n - 1) + num(mass[n - 1]) * (x * x + y * y + z * z)
    } else {
        twice_energy(mass, vel, mask, n - 1)
    }
}

/// A scalar product is computed without rounding.
pub open spec fn exact_dot<F: Fn(Op, Scalar, Scalar, Scalar) -> Scalar>(
    ar: F,
    a: Vec3,
    b: Vec3,
) -> bool {
    let (x, y, z) = (product(ar, a[0], b[0]), product(ar, a[1], b[1]), product(ar, a[2], b[2]));
    &&& exact_product(ar, a[0], b[0])
    &&& exact_product(ar, a[1], b[1])
    &&& exact_product(ar, a[2], b[2])
    &&& exact_sum(ar, x, y)
    &&& exact_sum(ar, sum(ar, x, y), z)
}

/// The kinetic energy of the first `n` atoms is added up without rounding.
pub open spec fn exact_kinetic<F: Fn(Op, Scalar, Scalar, Scalar) -> Scalar>(
    ar: F,
    atoms: Atom,
    mask: Option<Seq<bool>>,
    n: int,
) -> bool {
    forall|i: int|
        0 <= i < n && counts(mask, i) ==> {
            let v = #[trigger] atoms.vel@[i];
            let term = product(ar, atoms.mass@[i], dot_of(ar, v, v));
            &&& exact_dot(ar, v, v)
            &&& exact_product(ar, atoms.mass@[i], dot_of(ar, v, v))
            &&& exact_sum(ar, kinetic_upto(ar, atoms, mask, i), term)
        }
}

/// What is added up is mass times squared velocity.
pub proof fn kinetic_sum_is_twice_the_energy<F: Fn(Op, Scalar, Scalar, Scalar) -> Scalar>(
    ar: F,
    atoms: Atom,
    mask: Option<Seq<bool>>,
    n: int,
)
    requires
        exact_kinetic(ar, atoms, mask, n),
    ensures
        is_num(
            kinetic_upto(ar, atoms, mask, n),
            twice_energy(atoms.mass@, atoms.vel@, mask, n),
        ),
    decreases n,
{
    lemma_constants();
    if n > 0 {
        kinetic_sum_is_twice_the_energy(ar, atoms, mask, n - 1);
        let v: Vec3 = atoms.vel@[n - 1];
        assert(mask is Some && !mask->0[n - 1] <==> !counts(mask, n - 1));
        assert(counts(mask, n - 1) ==> exact_dot(ar, v, v));
    }
}

/// The total of a group is half the sum of mass times squared velocity over its
/// members, and their number.
pub proof fn group_totals_are_those_of_the_members<F: Fn(Op, Scalar, Scalar, Scalar) -> Scalar>(
    ar: F,
    total: GroupTotal,
    groups: Seq<Group>,
    atoms: Atom,
    k: int,
)
    requires
        measures(ar, total, groups, atoms),
        0 <= k < groups.len(),
        groups[k].name@ == total.name@,
        forall|j: int| 0 <= j < k ==> (#[trigger] groups[j]).name@ != total.name@,
        groups[k].count <= 2 * FRACTION,
        exact_kinetic(ar, atoms, Some(groups[k].mask@), atoms.nlocal as int),
        exact_product(
            ar,
            Scalar::half(),
            kinetic_upto(ar, atoms, Some(groups[k].mask@), atoms.nlocal as int),
        ),
    ensures
        num(total.ke) + num(total.ke) == twice_energy(
            atoms.mass@,
            atoms.vel@,
            Some(groups[k].mask@),
            atoms.nlocal as int,
        ),
        is_num(total.count, groups[k].count as int as real),
{
    let mask: Option<Seq<bool>> = Some(groups[k].mask@);
    kinetic_sum_is_twice_the_energy(ar, atoms, mask, atoms.nlocal as int);
    lemma_constants();
    let h: real = num(Scalar::half());
    let e: real = twice_energy(atoms.mass@, atoms.vel@, mask, atoms.nlocal as int);
    lemma_mul_add(e, h, h);
    assert(1real * e == e);
    let g: int = choose|g: int|
        {
            &&& 0 <= g < groups.len()
            &&& (#[trigger] groups[g]).name@ == total.name@
            &&& forall|j: int| 0 <= j < g ==> (#[trigger] groups[j]).name@ != total.name@
            &&& total.ke == product(
                ar,
                Scalar::half(),
                kinetic_upto(ar, atoms, Some(groups[g].mask@), atoms.nlocal as int),
            )
            &&& total.count == count_word(ar, groups[g].count as int)
        };
    assert(g == k);
    counted_steps_are_counted(ar, groups[k].count as int);
}

/// A temperature is computed without rounding.
pub open spec fn exact_temperature<F: Fn(Op, Scalar, Scalar, Scalar) -> Scalar>(
    ar: F,
    ke: Scalar,
    n: Scalar,
) -> bool {
    let free = difference(ar, product(ar, Scalar::three(), n), Scalar::three());
    &&& exact_product(ar, Scalar::three(), n)
    &&& exact_difference(ar, product(ar, Scalar::three(), n), Scalar::three())
    &&& exact_product(ar, Scalar::two(), ke)
    &&& num(free) > 0real ==> exact_quotient(ar, product(ar, Scalar::two(), ke), free)
}

/// The temperature of more than one atom, times the degrees of freedom that are left
/// to them, is twice their kinetic energy. Of one atom it is zero.
pub proof fn temperature_shares_the_energy<F: Fn(Op, Scalar, Scalar, Scalar) -> Scalar>(
    ar: F,
    ke: Scalar,
    n: Scalar,
)
    requires
        exact_temperature(ar, ke, n),
    ensures
        num(n) > 1real ==> num(temperature(ar, ke, n)) * (3real * num(n) - 3real) == num(ke) + num(
            ke,
        ),
        num(n) <= 1real ==> num(temperature(ar, ke, n)) == 0real,
{
    lemma_constants();
    lemma_small_numbers();
    let free: Scalar = difference(ar, product(ar, Scalar::three(), n), Scalar::three());
    lemma_order(Scalar::zero(), free);
    if num(n) > 1real {
        lemma_divided(2real * num(ke), num(free));
    }
}

/// The column of the temperature shows that of all atoms, or of the group that it
/// names.
pub proof fn temperature_column_shares_the_energy<
    F: Fn(Op, Scalar, Scalar, Scalar) -> Scalar,
    R: Fn(Style, Scalar) -> String,
>(ar: F, show: R, thermo: Thermo, column: ThermoColumn, step: int, totals: ThermoTotals) -> (t:
    Scalar)
    requires
        column.compute_name@ == "temp"@,
        column.group() is Some ==> group_total(totals.groups@, column.group()->0) is Some,
        ({
            let (ke, n) = match column.group() {
                Some(g) => (
                    group_total(totals.groups@, g)->0.ke,
                    group_total(totals.groups@, g)->0.count,
                ),
                None => (totals.ke, totals.atoms),
            };
            exact_temperature(ar, ke, n) && num(n) > 1real
        }),
    ensures
        cell(ar, show, thermo, column, step, totals) == rendered(show, Style::Fixed(6), t),
        ({
            let (ke, n) = match column.group() {
                Some(g) => (
                    group_total(totals.groups@, g)->0.ke,
                    group_total(totals.groups@, g)->0.count,
                ),
                None => (totals.ke, totals.atoms),
            };
            num(t) * (3real * num(n) - 3real) == num(ke) + num(ke)
        }),
{
    reveal_strlit("temp");
    reveal_strlit("step");
    reveal_strlit("atoms");
    reveal_strlit("ke");
    assert("temp"@.len() == 4 && "step"@.len() == 4 && "atoms"@.len() == 5 && "ke"@.len() == 2);
    assert("temp"@[0] == 't' && "step"@[0] == 's');
    let (ke, n): (Scalar, Scalar) = column_totals(column, totals);
    temperature_shares_the_energy(ar, ke, n);
    temperature(ar, ke, n)
}

/// The totals of a group are those of an entry with its name, and of no other.
pub proof fn group_totals_go_by_name(groups: Seq<GroupTotal>, name: Seq<char>)
    ensures
        group_total(groups, name) matches Some(t) ==> t.name@ == name && groups.contains(t),
        group_total(groups, name) is None ==> forall|k: int|
            0 <= k < groups.len() ==> (#[trigger] groups[k]).name@ != name,
    decreases groups.len(),
{
    if groups.len() > 0 && groups.last().name@ != name {
        let rest: Seq<GroupTotal> = groups.drop_last();
        group_totals_go_by_name(rest, name);
        if group_total(rest, name) is Some {
            let t: GroupTotal = group_total(rest, name)->0;
            let k: int = choose|k: int| 0 <= k < rest.len() && rest[k] == t;
            assert(groups[k] == t);
        } else {
            assert forall|k: int| 0 <= k < groups.len() implies (#[trigger] groups[k]).name@ != name by {
                if k < rest.len() {
                    assert(rest[k].name@ != name);
                }
            }
        }
    } else if groups.len() > 0 {
        assert(groups[groups.len() - 1] == groups.last());
    }
}

/// The step rate times the time that has passed is the number of steps.
pub proof fn step_rate_counts_the_steps<F: Fn(Op, Scalar, Scalar, Scalar) -> Scalar>(
    ar: F,
    steps: int,
    elapsed: Scalar,
)
    requires
        0 <= steps <= 2 * FRACTION,
        Scalar::nano().below(elapsed) ==> exact_quotient(ar, count_word(ar, steps), elapsed),
    ensures
        Scalar::nano().below(elapsed) ==> num(step_rate(ar, steps, elapsed)) * num(elapsed)
            == steps as real,
        !Scalar::nano().below(elapsed) ==> num(step_rate(ar, steps, elapsed)) == 0real,
{
    lemma_constants();
    counted_steps_are_counted(ar, steps);
    if Scalar::nano().below(elapsed) {
        lemma_divided(steps as real, num(elapsed));
    }
}

/// Every column shows what it is named after: of all atoms, or of the group that it
/// names. Under any other name it shows the value that was reported under it.
pub proof fn columns_show_what_they_are_named_after<
    F: Fn(Op, Scalar, Scalar, Scalar) -> Scalar,
    R: Fn(Style, Scalar) -> String,
>(ar: F, show: R, thermo: Thermo, column: ThermoColumn, step: int, totals: ThermoTotals)
    requires
        0 <= thermo.last_printed_step <= step <= u64::MAX,
    ensures
        ({
            let name = column.compute_name@;
            let shown = cell(ar, show, thermo, column, step, totals);
            let t = group_total(totals.groups@, column.group()->0);
            &&& name == "step"@ ==> shown == digits(step as nat)
            &&& name == "ke"@ && column.group() is None ==> shown == rendered(
                show,
                Style::Exponent(6),
                totals.ke,
            )
            &&& name == "ke"@ && column.group() is Some && t is Some ==> shown == rendered(
                show,
                Style::Exponent(6),
                t->0.ke,
            )
            &&& name == "walltime"@ ==> shown == rendered(show, Style::Fixed(4), totals.elapsed)
            &&& name == "atoms"@ && column.group() is None ==> forall|n: u64|
                totals.atoms.integer_part() == n ==> shown == #[trigger] digits(n as nat)
            &&& name == "atoms"@ && column.group() is Some && t is Some ==> forall|n: u64|
                t->0.count.integer_part() == n ==> shown == #[trigger] digits(n as nat)
            &&& name == "neighbors"@ ==> forall|n: usize|
                totals.neighbors.integer_part() == n ==> shown == #[trigger] digits(n as nat)
        }),
{
    reveal_strlit("step");
    reveal_strlit("atoms");
    reveal_strlit("ke");
    reveal_strlit("temp");
    reveal_strlit("neighbors");
    reveal_strlit("walltime");
    reveal_strlit("stepps");
    assert("step"@.len() == 4 && "atoms"@.len() == 5 && "ke"@.len() == 2 && "temp"@.len() == 4);
    assert("neighbors"@.len() == 9 && "walltime"@.len() == 8 && "stepps"@.len() == 6);
    assert("temp"@[0] == 't' && "step"@[0] == 's');
}

/// The rate of steps that is shown, times the time since the last row, is the number of
/// steps since then.
pub proof fn rate_column_counts_the_steps<
    F: Fn(Op, Scalar, Scalar, Scalar) -> Scalar,
    R: Fn(Style, Scalar) -> String,
>(ar: F, show: R, thermo: Thermo, column: ThermoColumn, step: int, totals: ThermoTotals) -> (rate:
    Scalar)
    requires
        column.compute_name@ == "stepps"@,
        thermo.last_printed_step <= step <= 2 * FRACTION,
        num(totals.elapsed) > 1real / 100000000real,
        !totals.elapsed.nan(),
        exact_quotient(
            ar,
            count_word(ar, step - thermo.last_printed_step),
            totals.elapsed,
        ),
    ensures
        cell(ar, show, thermo, column, step, totals) == rendered(show, Style::Fixed(1), rate),
        num(rate) * num(totals.elapsed) == (step - thermo.last_printed_step) as real,
{
    reveal_strlit("step");
    reveal_strlit("atoms");
    reveal_strlit("ke");
    reveal_strlit("temp");
    reveal_strlit("neighbors");
    reveal_strlit("walltime");
    reveal_strlit("stepps");
    assert("step"@.len() == 4 && "atoms"@.len() == 5 && "ke"@.len() == 2 && "temp"@.len() == 4);
    assert("neighbors"@.len() == 9 && "walltime"@.len() == 8 && "stepps"@.len() == 6);
    crate::constants::nano_is_what_it_says();
    lemma_order(Scalar::nano(), totals.elapsed);
    let s: real = num(Scalar::nano());
    assert(s < 1real / 100000000real) by (nonlinear_arith)
        requires
            s * 1000000000000000real < 1000001real,
    ;
    step_rate_counts_the_steps(ar, step - thermo.last_printed_step, totals.elapsed);
    step_rate(ar, step - thermo.last_printed_step, totals.elapsed)
}

} // verus!
