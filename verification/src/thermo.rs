//! The table of global quantities that a run reports at intervals.

use crate::atom::{compute_ke, kinetic_upto, Atom};
use crate::group::{Group, GroupRegistry};
use crate::scalar::{
    clamp_int, count_word, difference, from_count, is_arithmetic, minus, over, product, quotient,
    times, Op, Scalar,
};
use crate::stages::{interval_at, stage_interval, stages};
use crate::text::{
    append_repeated, decimal, digits, is_rendering, join, joined_with, pad, padded, render, rendered,
    repeated, texts, Style,
};
use crate::virial::{requested, VirialStress};
use grass_io::RunConfig;
use vstd::prelude::*;
use vstd::string::*;
use vstd::utf8::encode_utf8;

verus! {

/// Which columns the table has; `None` leaves the choice to the library.
pub struct ThermoConfig {
    pub columns: Option<Vec<String>>,
}

impl Default for ThermoConfig {
    fn default() -> (r: ThermoConfig)
        ensures
            r.columns is None,
    {
        ThermoConfig { columns: None }
    }
}

/// A column of the table: what it shows, of which group, and how.
pub struct ThermoColumn {
    pub raw: String,
    pub compute_name: String,
    pub group_name: Option<String>,
    pub header: String,
    pub width: usize,
}

/// The upper-case form of a character, as `char::to_uppercase` gives it.
pub uninterp spec fn upper_case(c: char) -> Seq<char>;

/// `char::to_uppercase`: the characters that it yields for `c`, as a text.
#[verifier::external_body]
fn to_upper_case(c: char) -> (r: String)
    ensures
        r@ == upper_case(c),
{
    c.to_uppercase().to_string()
}

/// `s` with its first character in upper case.
pub open spec fn capitalized(s: Seq<char>) -> Seq<char> {
    if s.len() == 0 {
        s
    } else {
        upper_case(s[0]) + s.skip(1)
    }
}

/// `s` with `head` in place of its first character.
pub fn with_head(s: &str, head: &str) -> (r: String)
    requires
        s@.len() > 0,
    ensures
        r@ == head@ + s@.skip(1),
{
    let mut out: String = head.to_owned();
    let tail: &str = s.substring_char(1, s.unicode_len());
    out.append(tail);
    assert(s@.subrange(1, s@.len() as int) =~= s@.skip(1));
    out
}

/// Puts the first character in upper case.
pub fn capitalize(s: &str) -> (r: String)
    ensures
        r@ == capitalized(s@),
{
    if s.unicode_len() == 0 {
        let r: String = String::new();
        assert(r@ =~= s@);
        r
    } else {
        let head: String = to_upper_case(s.get_char(0));
        with_head(s, head.as_str())
    }
}

/// The least width of a column.
pub const MIN_WIDTH: usize = 12;

/// `raw` is the name of a quantity, without a slash, or such a name, a slash
/// and the name of a group.
pub open spec fn splits_as(raw: Seq<char>, name: Seq<char>, group: Option<Seq<char>>) -> bool {
    &&& !name.contains('/')
    &&& match group {
        None => raw == name,
        Some(g) => raw == name + seq!['/'] + g,
    }
}

/// The header of a column.
pub open spec fn header_of(name: Seq<char>, group: Option<Seq<char>>) -> Seq<char> {
    match group {
        None => capitalized(name),
        Some(g) => capitalized(name) + seq!['/'] + g,
    }
}

impl ThermoColumn {
    /// The name of the group, if the column has one.
    pub open spec fn group(&self) -> Option<Seq<char>> {
        match self.group_name {
            Some(g) => Some(g@),
            None => None,
        }
    }

    /// This is the column that `raw` asks for.
    pub open spec fn shows(&self, raw: Seq<char>) -> bool {
        &&& self.raw@ == raw
        &&& splits_as(raw, self.compute_name@, self.group())
        &&& self.header@ == header_of(self.compute_name@, self.group())
        &&& self.width == if (encode_utf8(self.header@).len() as usize) < MIN_WIDTH {
            MIN_WIDTH
        } else {
            encode_utf8(self.header@).len() as usize
        }
    }
}

/// Reads a column specification: a quantity, or a quantity and a group with a
/// slash between them.
pub fn parse_thermo_column(raw: &str) -> (r: ThermoColumn)
    ensures
        r.shows(raw@),
{
    let len: usize = raw.unicode_len();
    let mut at: usize = 0;
    while at < len && raw.get_char(at) != '/'
        invariant
            at <= len == raw@.len(),
            forall|k: int| 0 <= k < at ==> raw@[k] != '/',
        decreases len - at,
    {
        at = at + 1;
    }
    let compute_name: String = raw.substring_char(0, at).to_owned();
    assert(compute_name@ == raw@.subrange(0, at as int));
    assert(!compute_name@.contains('/'));
    let mut header: String = capitalize(compute_name.as_str());
    let mut group_name: Option<String> = None;
    if at < len {
        let g: String = raw.substring_char(at + 1, len).to_owned();
        proof {
            reveal_strlit("/");
        }
        header.append("/");
        header.append(g.as_str());
        proof {
            assert("/"@ =~= seq!['/']);
            assert(raw@[at as int] == '/');
            assert(raw@ =~= compute_name@ + seq!['/'] + g@);
        }
        group_name = Some(g);
    } else {
        assert(raw@ =~= compute_name@);
    }
    let bytes: usize = header.as_str().len();
    let width: usize = if bytes < MIN_WIDTH {
        MIN_WIDTH
    } else {
        bytes
    };
    ThermoColumn { raw: raw.to_owned(), compute_name, group_name, header, width }
}

/// The columns of a table whose configuration names none.
pub open spec fn usual_columns() -> Seq<Seq<char>> {
    seq!["step"@, "atoms"@, "ke"@, "neighbors"@, "walltime"@, "stepps"@]
}

/// The columns of a table whose configuration names none.
pub fn default_columns() -> (r: Vec<String>)
    ensures
        texts(r@) == usual_columns(),
{
    let mut r: Vec<String> = Vec::new();
    r.push("step".to_owned());
    r.push("atoms".to_owned());
    r.push("ke".to_owned());
    r.push("neighbors".to_owned());
    r.push("walltime".to_owned());
    r.push("stepps".to_owned());
    assert(texts(r@) =~= usual_columns());
    r
}

/// A value that a user of the library reports under a name.
pub struct NamedValue {
    pub name: String,
    pub value: Scalar,
}

/// The value last set under `name`.
pub open spec fn value_of(entries: Seq<NamedValue>, name: Seq<char>) -> Option<Scalar>
    decreases entries.len(),
{
    if entries.len() == 0 {
        None
    } else if entries.last().name@ == name {
        Some(entries.last().value)
    } else {
        value_of(entries.drop_last(), name)
    }
}

/// Values by name.
pub struct ThermoValues {
    pub entries: Vec<NamedValue>,
}

/// Where the last entry under `name` stands among the first `n`.
proof fn lemma_value_at(entries: Seq<NamedValue>, name: Seq<char>, i: int)
    requires
        0 <= i < entries.len(),
        entries[i].name@ == name,
        forall|k: int| i < k < entries.len() ==> (#[trigger] entries[k]).name@ != name,
    ensures
        value_of(entries, name) == Some(entries[i].value),
    decreases entries.len(),
{
    if i < entries.len() - 1 {
        lemma_value_at(entries.drop_last(), name, i);
    }
}

proof fn lemma_value_absent(entries: Seq<NamedValue>, name: Seq<char>)
    requires
        forall|k: int| 0 <= k < entries.len() ==> (#[trigger] entries[k]).name@ != name,
    ensures
        value_of(entries, name) is None,
    decreases entries.len(),
{
    if entries.len() > 0 {
        lemma_value_absent(entries.drop_last(), name);
    }
}

/// A new value in one entry leaves the values under other names.
proof fn lemma_value_elsewhere(before: Seq<NamedValue>, after: Seq<NamedValue>, i: int, name: Seq<char>)
    requires
        before.len() == after.len(),
        0 <= i < before.len(),
        before[i].name@ != name,
        after[i].name@ != name,
        forall|k: int| 0 <= k < before.len() && k != i ==> before[k] == #[trigger] after[k],
    ensures
        value_of(before, name) == value_of(after, name),
    decreases before.len(),
{
    let n: int = before.len() - 1;
    if i < n {
        assert(before[n] == after[n]);
        lemma_value_elsewhere(before.drop_last(), after.drop_last(), i, name);
    } else {
        assert(before.drop_last() =~= after.drop_last());
    }
}

impl ThermoValues {
    /// The value under `name`.
    pub fn get(&self, name: &str) -> (r: Option<Scalar>)
        ensures
            r == value_of(self.entries@, name@),
    {
        let wanted: String = name.to_owned();
        let mut i: usize = self.entries.len();
        while i > 0
            invariant
                i <= self.entries@.len(),
                wanted@ == name@,
                forall|k: int|
                    i <= k < self.entries@.len() ==> (#[trigger] self.entries@[k]).name@ != name@,
            decreases i,
        {
            i = i - 1;
            if self.entries[i].name == wanted {
                proof {
                    lemma_value_at(self.entries@, name@, i as int);
                }
                return Some(self.entries[i].value);
            }
        }
        proof {
            lemma_value_absent(self.entries@, name@);
        }
        None
    }

    /// Puts a value under `name`, in place of the one that was there.
    pub fn insert(&mut self, name: &str, value: Scalar)
        ensures
            forall|n: Seq<char>| #[trigger]
                value_of(final(self).entries@, n) == if n == name@ {
                    Some(value)
                } else {
                    value_of(old(self).entries@, n)
                },
    {
        let ghost before: Seq<NamedValue> = self.entries@;
        let wanted: String = name.to_owned();
        let mut i: usize = self.entries.len();
        while i > 0
            invariant
                i <= self.entries@.len(),
                self.entries@ == before,
                before == old(self).entries@,
                wanted@ == name@,
                forall|k: int| i <= k < before.len() ==> (#[trigger] before[k]).name@ != name@,
            decreases i,
        {
            i = i - 1;
            if self.entries[i].name == wanted {
                self.entries[i] = NamedValue { name: wanted, value };
                proof {
                    let after: Seq<NamedValue> = self.entries@;
                    lemma_value_at(after, name@, i as int);
                    assert forall|n: Seq<char>| n != name@ implies #[trigger] value_of(after, n)
                        == value_of(before, n) by {
                        lemma_value_elsewhere(before, after, i as int, n);
                    }
                }
                return ;
            }
        }
        self.entries.push(NamedValue { name: wanted, value });
        proof {
            let after: Seq<NamedValue> = self.entries@;
            assert(after.drop_last() =~= before);
            assert(after.last().name@ == name@);
        }
    }
}

/// The table: how often a row is written, which step was written last, the
/// columns, and the values that users of the library report.
pub struct Thermo {
    pub interval: usize,
    pub last_printed_step: usize,
    pub columns: Vec<ThermoColumn>,
    pub values: ThermoValues,
}

impl Default for Thermo {
    fn default() -> (r: Thermo)
        ensures
            r.is_fresh(),
    {
        Thermo::new()
    }
}

/// The interval of a table that no stage overrides.
pub const DEFAULT_INTERVAL: usize = 100;

/// The columns are those that the names ask for.
pub open spec fn shown_columns(columns: Seq<ThermoColumn>, names: Seq<Seq<char>>) -> bool {
    &&& columns.len() == names.len()
    &&& forall|k: int| 0 <= k < columns.len() ==> (#[trigger] columns[k]).shows(names[k])
}

/// The column names that a configuration asks for.
pub open spec fn configured_columns(config: ThermoConfig) -> Seq<Seq<char>> {
    match config.columns {
        Some(names) => texts(names@),
        None => usual_columns(),
    }
}

fn parse_columns(names: &Vec<String>) -> (r: Vec<ThermoColumn>)
    ensures
        shown_columns(r@, texts(names@)),
{
    let mut columns: Vec<ThermoColumn> = Vec::new();
    let mut k: usize = 0;
    while k < names.len()
        invariant
            k <= names@.len(),
            columns@.len() == k,
            forall|j: int| 0 <= j < k ==> (#[trigger] columns@[j]).shows(texts(names@)[j]),
        decreases names.len() - k,
    {
        columns.push(parse_thermo_column(names[k].as_str()));
        k = k + 1;
    }
    columns
}

impl Thermo {
    /// A table as it is before the first stage.
    pub open spec fn is_fresh(&self) -> bool {
        &&& self.interval == DEFAULT_INTERVAL
        &&& self.last_printed_step == 0
        &&& self.columns@.len() == 0
        &&& self.values.entries@.len() == 0
    }

    pub fn new() -> (r: Thermo)
        ensures
            r.is_fresh(),
    {
        Thermo {
            interval: DEFAULT_INTERVAL,
            last_printed_step: 0,
            columns: Vec::new(),
            values: ThermoValues { entries: Vec::new() },
        }
    }

    /// Everything but the reported values is as in `other`.
    pub open spec fn same_table(&self, other: &Thermo) -> bool {
        &&& self.interval == other.interval
        &&& self.last_printed_step == other.last_printed_step
        &&& self.columns == other.columns
    }

    /// Reports a value under `name`; a column of that name shows it.
    pub fn set(&mut self, name: &str, value: Scalar)
        ensures
            final(self).same_table(old(self)),
            forall|n: Seq<char>| #[trigger]
                value_of(final(self).values.entries@, n) == if n == name@ {
                    Some(value)
                } else {
                    value_of(old(self).values.entries@, n)
                },
    {
        self.values.insert(name, value);
    }

    /// Whether a row is due at `step`.
    pub fn is_due(&self, step: usize) -> (r: bool)
        ensures
            r == step.is_multiple_of(self.interval),
            self.interval == 0 ==> r == (step == 0),
            self.interval > 0 ==> (r <==> exists|k: int| #[trigger] (k * self.interval) == step),
    {
        proof {
            if self.interval > 0 {
                crate::stages::multiples_are_whole_intervals(step as int, self.interval as int);
            }
        }
        step.is_multiple_of(self.interval)
    }
}

/// Prepares the table for stage `index` at `step`: past the last stage nothing
/// happens. The columns are chosen once; the virial is asked for as often as a
/// row is written. Returns whether there is such a stage.
pub fn setup_thermo(
    thermo: &mut Thermo,
    virial: &mut Option<VirialStress>,
    config: &ThermoConfig,
    run: &RunConfig,
    index: usize,
    step: usize,
) -> (r: bool)
    ensures
        r == (index < stages(*run).len()),
        !r ==> *final(thermo) == *old(thermo) && *final(virial) == *old(virial),
        r ==> {
            &&& final(thermo).interval == interval_at(
                *run,
                index as int,
                "thermo"@,
                DEFAULT_INTERVAL,
            )
            &&& final(thermo).last_printed_step == step
            &&& final(thermo).values == old(thermo).values
            &&& old(thermo).columns@.len() > 0 ==> final(thermo).columns == old(thermo).columns
            &&& old(thermo).columns@.len() == 0 ==> shown_columns(
                final(thermo).columns@,
                configured_columns(*config),
            )
            &&& match *old(virial) {
                None => *final(virial) is None,
                Some(v) => *final(virial) matches Some(w) && {
                    &&& w.interval == requested(v.interval, final(thermo).interval)
                    &&& w.same_stress(&v)
                    &&& w.active == v.active
                },
            }
        },
{
    if index >= run.num_stages() {
        return false;
    }
    let every: usize = stage_interval(run, index, "thermo", DEFAULT_INTERVAL);
    thermo.interval = every;
    match virial {
        Some(v) => {
            v.set_interval(every);
        },
        None => {},
    }
    thermo.last_printed_step = step;
    if thermo.columns.len() == 0 {
        thermo.columns =
        match &config.columns {
            Some(names) => parse_columns(names),
            None => parse_columns(&default_columns()),
        };
    }
    true
}

/// The headers, each in a field of its column's width.
pub open spec fn header_cells(columns: Seq<ThermoColumn>) -> Seq<Seq<char>> {
    Seq::new(columns.len(), |k: int| padded(columns[k].header@, columns[k].width as nat))
}

/// The header line of the table.
pub fn thermo_header(columns: &Vec<ThermoColumn>) -> (r: String)
    ensures
        r@ == joined_with(header_cells(columns@), " "@),
{
    let mut cells: Vec<String> = Vec::new();
    let mut k: usize = 0;
    while k < columns.len()
        invariant
            k <= columns@.len(),
            cells@.len() == k,
            forall|j: int| 0 <= j < k ==> (#[trigger] cells@[j])@ == header_cells(columns@)[j],
        decreases columns.len() - k,
    {
        cells.push(pad(columns[k].header.as_str(), columns[k].width));
        k = k + 1;
    }
    assert(texts(cells@) =~= header_cells(columns@));
    join(&cells, " ")
}

/// The widths of the first `n` columns and of the gaps between them.
pub open spec fn total_width(columns: Seq<ThermoColumn>, n: int) -> nat
    decreases n,
{
    if n <= 0 {
        0
    } else {
        total_width(columns, n - 1) + columns[n - 1].width as nat + if n > 1 {
            1nat
        } else {
            0nat
        }
    }
}

/// The line of dashes under the header.
pub fn thermo_rule(columns: &Vec<ThermoColumn>) -> (r: String)
    ensures
        r@ == repeated('-', total_width(columns@, columns@.len() as int)),
{
    let mut out: String = String::new();
    proof {
        reveal_strlit("-");
    }
    let mut k: usize = 0;
    while k < columns.len()
        invariant
            k <= columns@.len(),
            "-"@.len() == 1,
            "-"@[0] == '-',
            out@ =~= repeated('-', total_width(columns@, k as int)),
        decreases columns.len() - k,
    {
        if k > 0 {
            append_repeated(&mut out, "-", 1);
        }
        append_repeated(&mut out, "-", columns[k].width);
        k = k + 1;
    }
    out
}

/// What is summed over the atoms of one group.
pub struct GroupTotal {
    pub name: String,
    pub ke: Scalar,
    pub count: Scalar,
}

/// What is summed over the atoms of all processes, and the time since the last
/// row.
pub struct ThermoTotals {
    pub ke: Scalar,
    pub atoms: Scalar,
    pub neighbors: Scalar,
    pub groups: Vec<GroupTotal>,
    pub elapsed: Scalar,
}

/// The totals of the group `name`, among those of the first groups.
pub open spec fn group_total(groups: Seq<GroupTotal>, name: Seq<char>) -> Option<GroupTotal>
    decreases groups.len(),
{
    if groups.len() == 0 {
        None
    } else if groups.last().name@ == name {
        Some(groups.last())
    } else {
        group_total(groups.drop_last(), name)
    }
}

proof fn lemma_total_at(groups: Seq<GroupTotal>, name: Seq<char>, i: int)
    requires
        0 <= i < groups.len(),
        groups[i].name@ == name,
        forall|k: int| i < k < groups.len() ==> (#[trigger] groups[k]).name@ != name,
    ensures
        group_total(groups, name) == Some(groups[i]),
    decreases groups.len(),
{
    if i < groups.len() - 1 {
        lemma_total_at(groups.drop_last(), name, i);
    }
}

proof fn lemma_total_absent(groups: Seq<GroupTotal>, name: Seq<char>)
    requires
        forall|k: int| 0 <= k < groups.len() ==> (#[trigger] groups[k]).name@ != name,
    ensures
        group_total(groups, name) is None,
    decreases groups.len(),
{
    if groups.len() > 0 {
        lemma_total_absent(groups.drop_last(), name);
    }
}

fn find_total<'a>(groups: &'a Vec<GroupTotal>, name: &String) -> (r: Option<&'a GroupTotal>)
    ensures
        match r {
            Some(t) => group_total(groups@, name@) == Some(*t),
            None => group_total(groups@, name@) is None,
        },
{
    let mut i: usize = groups.len();
    while i > 0
        invariant
            i <= groups@.len(),
            forall|k: int| i <= k < groups@.len() ==> (#[trigger] groups@[k]).name@ != name@,
        decreases i,
    {
        i = i - 1;
        if groups[i].name == *name {
            proof {
                lemma_total_at(groups@, name@, i as int);
            }
            return Some(&groups[i]);
        }
    }
    proof {
        lemma_total_absent(groups@, name@);
    }
    None
}

/// The kinetic energy and the number of atoms that a column speaks of: those of
/// its group, zero for a group that is not known, else those of all atoms.
pub open spec fn column_totals(column: ThermoColumn, totals: ThermoTotals) -> (Scalar, Scalar) {
    match column.group() {
        Some(g) => match group_total(totals.groups@, g) {
            Some(t) => (t.ke, t.count),
            None => (Scalar::zero(), Scalar::zero()),
        },
        None => (totals.ke, totals.atoms),
    }
}

/// The temperature of `n` atoms with kinetic energy `ke`: twice the energy per
/// degree of freedom, zero where no degree of freedom is left.
pub open spec fn temperature<F: Fn(Op, Scalar, Scalar, Scalar) -> Scalar>(ar: F, ke: Scalar, n: Scalar) -> Scalar {
    let free = difference(ar, product(ar, Scalar::three(), n), Scalar::three());
    if Scalar::zero().below(free) {
        quotient(ar, product(ar, Scalar::two(), ke), free)
    } else {
        Scalar::zero()
    }
}

/// Steps per second: zero where hardly any time has passed.
pub open spec fn step_rate<F: Fn(Op, Scalar, Scalar, Scalar) -> Scalar>(ar: F, steps: int, elapsed: Scalar) -> Scalar {
    if Scalar::nano().below(elapsed) {
        quotient(ar, count_word(ar, steps), elapsed)
    } else {
        Scalar::zero()
    }
}

pub open spec fn whole(x: Scalar) -> nat {
    clamp_int(x.integer_part(), 0, u64::MAX as int) as nat
}

/// What a column shows.
pub open spec fn cell<
    F: Fn(Op, Scalar, Scalar, Scalar) -> Scalar,
    R: Fn(Style, Scalar) -> String,
>(
    ar: F,
    show: R,
    thermo: Thermo,
    column: ThermoColumn,
    step: int,
    totals: ThermoTotals,
) -> Seq<char> {
    let name = column.compute_name@;
    let sums = column_totals(column, totals);
    if name == "step"@ {
        digits(step as nat)
    } else if name == "atoms"@ {
        digits(whole(sums.1))
    } else if name == "ke"@ {
        rendered(show, Style::Exponent(6), sums.0)
    } else if name == "temp"@ {
        rendered(show, Style::Fixed(6), temperature(ar, sums.0, sums.1))
    } else if name == "neighbors"@ {
        digits(clamp_int(totals.neighbors.integer_part(), 0, usize::MAX as int) as nat)
    } else if name == "walltime"@ {
        rendered(show, Style::Fixed(4), totals.elapsed)
    } else if name == "stepps"@ {
        rendered(
            show,
            Style::Fixed(1),
            step_rate(ar, step - thermo.last_printed_step, totals.elapsed),
        )
    } else {
        match value_of(thermo.values.entries@, name) {
            Some(v) => rendered(show, Style::Exponent(6), v),
            None => "N/A"@,
        }
    }
}

/// The cells of a row, each in a field of its column's width.
pub open spec fn row_cells<
    F: Fn(Op, Scalar, Scalar, Scalar) -> Scalar,
    R: Fn(Style, Scalar) -> String,
>(ar: F, show: R, thermo: Thermo, step: int, totals: ThermoTotals) -> Seq<Seq<char>> {
    Seq::new(
        thermo.columns@.len(),
        |k: int|
            padded(
                cell(ar, show, thermo, thermo.columns@[k], step, totals),
                thermo.columns@[k].width as nat,
            ),
    )
}

fn is_named(s: &String, name: &str) -> (r: bool)
    ensures
        r == (s@ == name@),
{
    *s == name.to_owned()
}

fn cell_text<F: Fn(Op, Scalar, Scalar, Scalar) -> Scalar, R: Fn(Style, Scalar) -> String>(
    thermo: &Thermo,
    column: &ThermoColumn,
    step: usize,
    totals: &ThermoTotals,
    ar: &F,
    show: &R,
) -> (r: String)
    requires
        is_arithmetic(*ar),
        is_rendering(*show),
        thermo.last_printed_step <= step,
    ensures
        r@ == cell(*ar, *show, *thermo, *column, step as int, *totals),
{
    let sums: (Scalar, Scalar) = match &column.group_name {
        Some(g) => match find_total(&totals.groups, g) {
            Some(t) => (t.ke, t.count),
            None => (Scalar::zero(), Scalar::zero()),
        },
        None => (totals.ke, totals.atoms),
    };
    let name: &String = &column.compute_name;
    if is_named(name, "step") {
        decimal(step as u64)
    } else if is_named(name, "atoms") {
        decimal(sums.1.to_u64())
    } else if is_named(name, "ke") {
        render(show, Style::Exponent(6), sums.0)
    } else if is_named(name, "temp") {
        let free: Scalar = minus(ar, times(ar, Scalar::three(), sums.1), Scalar::three());
        let temp: Scalar = if Scalar::zero().lt(free) {
            over(ar, times(ar, Scalar::two(), sums.0), free)
        } else {
            Scalar::zero()
        };
        render(show, Style::Fixed(6), temp)
    } else if is_named(name, "neighbors") {
        decimal(totals.neighbors.to_usize() as u64)
    } else if is_named(name, "walltime") {
        render(show, Style::Fixed(4), totals.elapsed)
    } else if is_named(name, "stepps") {
        let steps: usize = step - thermo.last_printed_step;
        let rate: Scalar = if Scalar::nano().lt(totals.elapsed) {
            over(ar, from_count(ar, steps as u64), totals.elapsed)
        } else {
            Scalar::zero()
        };
        render(show, Style::Fixed(1), rate)
    } else {
        match thermo.values.get(name.as_str()) {
            Some(v) => render(show, Style::Exponent(6), v),
            None => "N/A".to_owned(),
        }
    }
}

/// Writes the row of `step` and remembers the step.
pub fn print_thermo<F: Fn(Op, Scalar, Scalar, Scalar) -> Scalar, R: Fn(Style, Scalar) -> String>(
    thermo: &mut Thermo,
    step: usize,
    totals: &ThermoTotals,
    ar: &F,
    show: &R,
) -> (r: String)
    requires
        is_arithmetic(*ar),
        is_rendering(*show),
        old(thermo).last_printed_step <= step,
    ensures
        r@ == joined_with(row_cells(*ar, *show, *old(thermo), step as int, *totals), " "@),
        final(thermo).last_printed_step == step,
        final(thermo).interval == old(thermo).interval,
        final(thermo).columns == old(thermo).columns,
        final(thermo).values == old(thermo).values,
{
    let ghost want: Seq<Seq<char>> = row_cells(*ar, *show, *thermo, step as int, *totals);
    let mut cells: Vec<String> = Vec::new();
    let mut k: usize = 0;
    while k < thermo.columns.len()
        invariant
            is_arithmetic(*ar),
            is_rendering(*show),
            *thermo == *old(thermo),
            thermo.last_printed_step <= step,
            want == row_cells(*ar, *show, *thermo, step as int, *totals),
            k <= thermo.columns@.len(),
            cells@.len() == k,
            forall|j: int| 0 <= j < k ==> (#[trigger] cells@[j])@ == want[j],
        decreases thermo.columns.len() - k,
    {
        let text: String = cell_text(thermo, &thermo.columns[k], step, totals, ar, show);
        cells.push(pad(text.as_str(), thermo.columns[k].width));
        k = k + 1;
    }
    assert(texts(cells@) =~= want);
    thermo.last_printed_step = step;
    join(&cells, " ")
}

/// The number of atoms in all processes, kept with the atoms for reports.
pub fn refresh_atom_count(atoms: &mut Atom, total: Scalar)
    ensures
        *final(atoms) == (Atom { natoms: whole(total) as u64, ..*old(atoms) }),
{
    atoms.natoms = total.to_u64();
}

/// The six components of the virial, in the order in which they are reported.
pub open spec fn virial_names() -> Seq<Seq<char>> {
    seq!["virial_xx"@, "virial_yy"@, "virial_zz"@, "virial_xy"@, "virial_xz"@, "virial_yz"@]
}

/// Reports the six summed components of the virial.
pub fn output_virial_to_thermo(thermo: &mut Thermo, sums: [Scalar; 6])
    ensures
        final(thermo).same_table(old(thermo)),
        forall|k: int|
            0 <= k < 6 ==> value_of(
                final(thermo).values.entries@,
                #[trigger] virial_names()[k],
            ) == Some(sums[k]),
        forall|n: Seq<char>|
            !virial_names().contains(n) ==> #[trigger] value_of(final(thermo).values.entries@, n)
                == value_of(old(thermo).values.entries@, n),
{
    proof {
        reveal_strlit("virial_xx");
        reveal_strlit("virial_yy");
        reveal_strlit("virial_zz");
        reveal_strlit("virial_xy");
        reveal_strlit("virial_xz");
        reveal_strlit("virial_yz");
        assert("virial_xx"@[7] == 'x' && "virial_xx"@[8] == 'x');
        assert("virial_yy"@[7] == 'y' && "virial_yy"@[8] == 'y');
        assert("virial_zz"@[7] == 'z' && "virial_zz"@[8] == 'z');
        assert("virial_xy"@[7] == 'x' && "virial_xy"@[8] == 'y');
        assert("virial_xz"@[7] == 'x' && "virial_xz"@[8] == 'z');
        assert("virial_yz"@[7] == 'y' && "virial_yz"@[8] == 'z');
    }
    thermo.set("virial_xx", sums[0]);
    thermo.set("virial_yy", sums[1]);
    thermo.set("virial_zz", sums[2]);
    thermo.set("virial_xy", sums[3]);
    thermo.set("virial_xz", sums[4]);
    thermo.set("virial_yz", sums[5]);
    proof {
        let names: Seq<Seq<char>> = virial_names();
        assert(names[0] == "virial_xx"@);
        assert(names[1] == "virial_yy"@);
        assert(names[2] == "virial_zz"@);
        assert(names[3] == "virial_xy"@);
        assert(names[4] == "virial_xz"@);
        assert(names[5] == "virial_yz"@);
        assert forall|n: Seq<char>| !names.contains(n) implies #[trigger] value_of(
            thermo.values.entries@,
            n,
        ) == value_of(old(thermo).values.entries@, n) by {
            assert(n != names[0] && n != names[1] && n != names[2] && n != names[3] && n != names[4]
                && n != names[5]);
        }
    }
}

/// `total` is what this process adds to the sums of the group: the first group
/// of that name gives the members.
pub open spec fn measures<F: Fn(Op, Scalar, Scalar, Scalar) -> Scalar>(
    ar: F,
    total: GroupTotal,
    groups: Seq<Group>,
    atoms: Atom,
) -> bool {
    exists|k: int|
        {
            &&& 0 <= k < groups.len()
            &&& (#[trigger] groups[k]).name@ == total.name@
            &&& forall|j: int| 0 <= j < k ==> (#[trigger] groups[j]).name@ != total.name@
            &&& total.ke == product(
                ar,
                Scalar::half(),
                kinetic_upto(ar, atoms, Some(groups[k].mask@), atoms.nlocal as int),
            )
            &&& total.count == count_word(ar, groups[k].count as int)
        }
}

/// A column asks for the group `name`.
pub open spec fn asked_for(columns: Seq<ThermoColumn>, name: Seq<char>) -> bool {
    exists|k: int| 0 <= k < columns.len() && (#[trigger] columns[k]).group() == Some(name)
}

/// The masks of the groups that columns ask for speak of `n` atoms.
pub open spec fn masks_cover(columns: Seq<ThermoColumn>, groups: Seq<Group>, n: int) -> bool {
    forall|k: int|
        0 <= k < groups.len() && asked_for(columns, (#[trigger] groups[k]).name@) ==> n
            <= groups[k].mask@.len()
}

/// What this process adds to the sums of each group that a column asks for and
/// that exists: one entry for each, in the order in which the columns first ask.
pub fn group_totals<F: Fn(Op, Scalar, Scalar, Scalar) -> Scalar>(
    columns: &Vec<ThermoColumn>,
    groups: &GroupRegistry,
    atoms: &Atom,
    ar: &F,
) -> (r: Vec<GroupTotal>)
    requires
        is_arithmetic(*ar),
        atoms.wf(),
        atoms.nlocal <= atoms.records().len(),
        masks_cover(columns@, groups.groups@, atoms.nlocal as int),
    ensures
        forall|i: int|
            0 <= i < r@.len() ==> measures(*ar, #[trigger] r@[i], groups.groups@, *atoms)
                && asked_for(columns@, r@[i].name@),
        forall|name: Seq<char>|
            asked_for(columns@, name) && groups.has(name) ==> #[trigger] group_total(r@, name) is Some,
        forall|i: int, j: int|
            0 <= i < j < r@.len() ==> (#[trigger] r@[i]).name@ != (#[trigger] r@[j]).name@,
        first_asked(columns@, r@),
{
    let mut out: Vec<GroupTotal> = Vec::new();
    let ghost mut from: Seq<int> = Seq::empty();
    let mut k: usize = 0;
    while k < columns.len()
        invariant
            is_arithmetic(*ar),
            atoms.wf(),
            atoms.nlocal <= atoms.records().len(),
            masks_cover(columns@, groups.groups@, atoms.nlocal as int),
            k <= columns@.len(),
            from.len() == out@.len(),
            forall|i: int|
                0 <= i < out@.len() ==> measures(*ar, #[trigger] out@[i], groups.groups@, *atoms),
            forall|i: int| 0 <= i < out@.len() ==> 0 <= #[trigger] from[i] < k,
            forall|i: int|
                0 <= i < out@.len() ==> columns@[#[trigger] from[i]].group() == Some(
                    out@[i].name@,
                ),
            forall|i: int, j: int|
                0 <= i < out@.len() && 0 <= j < from[i] ==> (#[trigger] columns@[j]).group() != Some(
                    (#[trigger] out@[i]).name@,
                ),
            forall|i: int, j: int| 0 <= i < j < from.len() ==> #[trigger] from[i] < #[trigger] from[j],
            forall|j: int, name: Seq<char>|
                #![trigger columns@[j].group(), group_total(out@, name)]
                0 <= j < k && columns@[j].group() == Some(name) && groups.has(name) ==> group_total(
                    out@,
                    name,
                ) is Some,
        decreases columns.len() - k,
    {
        if let Some(name) = &columns[k].group_name {
            if find_total(&out, name).is_none() {
                if let Some(group) = groups.get(name.as_str()) {
                    let ghost before: Seq<GroupTotal> = out@;
                    proof {
                        assert(columns@[k as int].group() == Some(name@));
                        assert(asked_for(columns@, name@));
                    }
                    let ke: Scalar = compute_ke(atoms, Some(group.mask.as_slice()), ar);
                    let count: Scalar = from_count(ar, group.count as u64);
                    proof {
                        assert(groups.has(name@));
                        assert forall|j: int| 0 <= j < k implies (#[trigger] columns@[j]).group() != Some(
                            name@,
                        ) by {
                            assert(group_total(before, name@) is None);
                        }
                        assert(columns@[k as int].group() == Some(name@));
                    }
                    out.push(GroupTotal { name: name.clone(), ke, count });
                    proof {
                        from = from.push(k as int);
                        assert(out@.drop_last() =~= before);
                        assert forall|n: Seq<char>| group_total(before, n) is Some implies #[trigger] group_total(
                            out@,
                            n,
                        ) is Some by {}
                    }
                }
            }
        }
        k = k + 1;
    }
    proof {
        assert forall|i: int| 0 <= i < out@.len() implies asked_for(columns@, (#[trigger] out@[i]).name@) by {
            assert(columns@[from[i]].group() == Some(out@[i].name@));
        }
        assert forall|name: Seq<char>|
            asked_for(columns@, name) && groups.has(name) implies #[trigger] group_total(out@, name) is Some by {
            let j: int = choose|j: int|
                0 <= j < columns@.len() && (#[trigger] columns@[j]).group() == Some(name);
        }
        assert forall|i: int, j: int| 0 <= i < j < out@.len() implies (#[trigger] out@[i]).name@
            != (#[trigger] out@[j]).name@ by {
            assert(from[i] < from[j]);
            assert(columns@[from[i]].group() == Some(out@[i].name@));
        }
        assert(asks_first_at(columns@, out@, from));
    }
    out
}

/// The columns `at` are the first that ask for each of the groups, in order.
pub open spec fn asks_first_at(
    columns: Seq<ThermoColumn>,
    totals: Seq<GroupTotal>,
    at: Seq<int>,
) -> bool {
    &&& at.len() == totals.len()
    &&& forall|i: int, j: int| 0 <= i < j < at.len() ==> #[trigger] at[i] < #[trigger] at[j]
    &&& forall|i: int|
        0 <= i < at.len() ==> 0 <= #[trigger] at[i] < columns.len() && columns[at[i]].group() == Some(
            totals[i].name@,
        )
    &&& forall|i: int, j: int|
        0 <= i < at.len() && 0 <= j < at[i] ==> (#[trigger] columns[j]).group() != Some(
            (#[trigger] totals[i]).name@,
        )
}

/// The totals stand in the order in which the columns first ask for them.
pub open spec fn first_asked(columns: Seq<ThermoColumn>, totals: Seq<GroupTotal>) -> bool {
    exists|at: Seq<int>| #[trigger] asks_first_at(columns, totals, at)
}

} // verus!
