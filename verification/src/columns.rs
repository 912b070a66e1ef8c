//! Extension data made of columns of numbers.
//!
//! A column holds a fixed number of values per atom and says in which kinds of
//! communication it takes part. Records are packed column after column, so the
//! place of each column in a record follows from the widths alone.

use crate::atom_data::{permuted, swap_removed, AtomData, Field};
use crate::scalar::{is_arithmetic, plus, sum, summing, Op, Scalar};
use vstd::prelude::*;

verus! {

/// Which way values travel between owners and ghosts.
#[derive(Clone, Copy, PartialEq, Eq, Structural, Debug)]
pub enum CommDirection {
    Forward,
    Reverse,
}

/// One column: its description and its values, atom by atom.
pub struct Column {
    pub field: Field,
    pub values: Vec<Vec<Scalar>>,
}

/// Columns of equal length. Of a store without columns only the number of its
/// records is known, as a notion.
pub struct ColumnStore {
    pub columns: Vec<Column>,
    pub bare: Ghost<nat>,
}

/// The columns take part in this direction.
pub open spec fn selected(dir: CommDirection, f: Field) -> bool {
    match dir {
        CommDirection::Forward => f.forward,
        CommDirection::Reverse => f.reverse,
    }
}

/// Where column `k` begins in a record.
pub open spec fn offset_of(shape: Seq<Field>, k: int) -> nat
    decreases k,
{
    if k <= 0 {
        0
    } else {
        offset_of(shape, k - 1) + shape[k - 1].width as nat
    }
}

/// The length of a record.
pub open spec fn record_size(shape: Seq<Field>) -> nat {
    offset_of(shape, shape.len() as int)
}

/// Where column `k` begins in a message.
pub open spec fn comm_offset(dir: CommDirection, shape: Seq<Field>, k: int) -> nat
    decreases k,
{
    if k <= 0 {
        0
    } else {
        comm_offset(dir, shape, k - 1) + if selected(dir, shape[k - 1]) {
            shape[k - 1].width as nat
        } else {
            0
        }
    }
}

/// The length of a message.
pub open spec fn comm_size(dir: CommDirection, shape: Seq<Field>) -> nat {
    comm_offset(dir, shape, shape.len() as int)
}

/// The part of a record that belongs to column `k`.
pub open spec fn part(shape: Seq<Field>, row: Seq<Scalar>, k: int) -> Seq<Scalar> {
    row.subrange(offset_of(shape, k) as int, offset_of(shape, k + 1) as int)
}

/// The message that the first `k` columns of a record make.
pub open spec fn message(dir: CommDirection, shape: Seq<Field>, row: Seq<Scalar>, k: int) -> Seq<Scalar>
    decreases k,
{
    if k <= 0 {
        Seq::empty()
    } else {
        message(dir, shape, row, k - 1) + if selected(dir, shape[k - 1]) {
            part(shape, row, k - 1)
        } else {
            Seq::empty()
        }
    }
}

/// Element by element, `a` combined with `b`.
pub open spec fn combined(
    a: Seq<Scalar>,
    b: Seq<Scalar>,
    plus: spec_fn(Scalar, Scalar) -> Scalar,
) -> Seq<Scalar> {
    Seq::new(a.len(), |j: int| plus(a[j], b[j]))
}

/// What column `k` holds after a message: a forward message overwrites, a
/// reverse message adds.
pub open spec fn received(
    dir: CommDirection,
    shape: Seq<Field>,
    row: Seq<Scalar>,
    words: Seq<Scalar>,
    plus: spec_fn(Scalar, Scalar) -> Scalar,
    k: int,
) -> Seq<Scalar> {
    let new: Seq<Scalar> = words.subrange(
        comm_offset(dir, shape, k) as int,
        comm_offset(dir, shape, k + 1) as int,
    );
    if !selected(dir, shape[k]) {
        part(shape, row, k)
    } else if dir == CommDirection::Forward {
        new
    } else {
        combined(part(shape, row, k), new, plus)
    }
}

/// The first `k` columns of a record after a message.
pub open spec fn merged(
    dir: CommDirection,
    shape: Seq<Field>,
    row: Seq<Scalar>,
    words: Seq<Scalar>,
    plus: spec_fn(Scalar, Scalar) -> Scalar,
    k: int,
) -> Seq<Scalar>
    decreases k,
{
    if k <= 0 {
        Seq::empty()
    } else {
        merged(dir, shape, row, words, plus, k - 1) + received(dir, shape, row, words, plus, k - 1)
    }
}

/// `n` zeros.
pub open spec fn zeros(n: nat) -> Seq<Scalar> {
    Seq::new(n, |j: int| Scalar { bits: 0 })
}

/// The first `k` columns of a record with its accumulators cleared.
pub open spec fn cleared(shape: Seq<Field>, row: Seq<Scalar>, k: int) -> Seq<Scalar>
    decreases k,
{
    if k <= 0 {
        Seq::empty()
    } else {
        cleared(shape, row, k - 1) + if shape[k - 1].zero {
            zeros(shape[k - 1].width as nat)
        } else {
            part(shape, row, k - 1)
        }
    }
}

/// The record of atom `i` in the first `k` columns.
pub open spec fn row_of(columns: Seq<Column>, i: int, k: int) -> Seq<Scalar>
    decreases k,
{
    if k <= 0 {
        Seq::empty()
    } else {
        row_of(columns, i, k - 1) + columns[k - 1].values@[i]@
    }
}

/// The descriptions of the columns.
pub open spec fn shape_of(columns: Seq<Column>) -> Seq<Field> {
    Seq::new(columns.len(), |k: int| columns[k].field)
}

proof fn lemma_offset_grows(shape: Seq<Field>, a: int, b: int)
    requires
        0 <= a <= b,
    ensures
        offset_of(shape, a) <= offset_of(shape, b),
        comm_offset(CommDirection::Forward, shape, a) <= comm_offset(CommDirection::Forward, shape, b),
        comm_offset(CommDirection::Reverse, shape, a) <= comm_offset(CommDirection::Reverse, shape, b),
        comm_offset(CommDirection::Forward, shape, a) <= offset_of(shape, a),
        comm_offset(CommDirection::Reverse, shape, a) <= offset_of(shape, a),
    decreases b,
{
    if a < b {
        lemma_offset_grows(shape, a, b - 1);
    } else if a > 0 {
        lemma_offset_grows(shape, a - 1, b - 1);
    }
}

impl ColumnStore {
    /// The number of records.
    pub open spec fn count(&self) -> nat {
        if self.columns@.len() > 0 {
            self.columns@[0].values@.len()
        } else {
            self.bare@
        }
    }

    /// Every value of column `k` has the column's width.
    pub open spec fn column_ok(columns: Seq<Column>, k: int, n: nat) -> bool {
        &&& columns[k].values@.len() == n
        &&& forall|i: int|
            0 <= i < n ==> (#[trigger] columns[k].values@[i])@.len() == columns[k].field.width
    }

    /// Column `k` of record `i`.
    proof fn lemma_row_part(columns: Seq<Column>, i: int, n: nat, k: int, m: int)
        requires
            0 <= i < n,
            0 <= m <= columns.len(),
            forall|c: int| 0 <= c < columns.len() ==> #[trigger] Self::column_ok(columns, c, n),
        ensures
            row_of(columns, i, m).len() == offset_of(shape_of(columns), m),
            0 <= k < m ==> part(shape_of(columns), row_of(columns, i, m), k)
                == columns[k].values@[i]@,
        decreases m,
    {
        let shape: Seq<Field> = shape_of(columns);
        if m > 0 {
            Self::lemma_row_part(columns, i, n, k, m - 1);
            assert(Self::column_ok(columns, m - 1, n));
            assert(shape[m - 1] == columns[m - 1].field);
            if 0 <= k < m {
                assert(Self::column_ok(columns, k, n));
                lemma_offset_grows(shape, k, k + 1);
                lemma_offset_grows(shape, k + 1, m);
                if k < m - 1 {
                    lemma_offset_grows(shape, k + 1, m - 1);
                    assert(part(shape, row_of(columns, i, m), k) =~= part(
                        shape,
                        row_of(columns, i, m - 1),
                        k,
                    ));
                } else {
                    assert(part(shape, row_of(columns, i, m), k) =~= columns[k].values@[i]@);
                }
            }
        }
    }

    /// Columns without records.
    pub fn new(fields: &Vec<Field>) -> (r: ColumnStore)
        requires
            record_size(fields@) <= usize::MAX,
        ensures
            r.valid(),
            r.shape() == fields@,
            r.rows().len() == 0,
    {
        let mut columns: Vec<Column> = Vec::new();
        let mut k: usize = 0;
        while k < fields.len()
            invariant
                k <= fields@.len(),
                columns@.len() == k,
                forall|c: int|
                    0 <= c < k ==> (#[trigger] columns@[c]).field == fields@[c]
                        && columns@[c].values@.len() == 0,
            decreases fields.len() - k,
        {
            columns.push(Column { field: fields[k], values: Vec::new() });
            k = k + 1;
        }
        let r: ColumnStore = ColumnStore { columns, bare: Ghost(0) };
        assert(r.shape() =~= fields@);
        r
    }

    /// Appends the selected columns of record `i`.
    fn pack_selected(&self, dir: CommDirection, i: usize, buf: &mut Vec<Scalar>)
        requires
            self.valid(),
            i < self.rows().len(),
        ensures
            final(buf)@ == old(buf)@ + message(
                dir,
                self.shape(),
                self.rows()[i as int],
                self.columns@.len() as int,
            ),
            final(buf)@.len() == old(buf)@.len() + comm_size(dir, self.shape()),
    {
        let ghost before: Seq<Scalar> = buf@;
        let ghost shape: Seq<Field> = self.shape();
        let ghost row: Seq<Scalar> = self.rows()[i as int];
        let mut k: usize = 0;
        assert(before + message(dir, shape, row, 0) =~= before);
        while k < self.columns.len()
            invariant
                self.valid(),
                shape == self.shape(),
                i < self.rows().len(),
                row == self.rows()[i as int],
                k <= self.columns@.len(),
                buf@ == before + message(dir, shape, row, k as int),
                buf@.len() == before.len() + comm_offset(dir, shape, k as int),
            decreases self.columns.len() - k,
        {
            let column: &Column = &self.columns[k];
            let take: bool = match dir {
                CommDirection::Forward => column.field.forward,
                CommDirection::Reverse => column.field.reverse,
            };
            assert(shape[k as int] == column.field);
            assert(Self::column_ok(self.columns@, k as int, self.count()));
            if take {
                proof {
                    Self::lemma_row_part(
                        self.columns@,
                        i as int,
                        self.count(),
                        k as int,
                        self.columns@.len() as int,
                    );
                }
                append_all(buf, &column.values[i]);
            }
            k = k + 1;
            assert(buf@ =~= before + message(dir, shape, row, k as int));
        }
    }

    /// Gives the selected columns of record `i` the values of a message.
    fn unpack_selected<F: Fn(Op, Scalar, Scalar, Scalar) -> Scalar>(
        &mut self,
        dir: CommDirection,
        i: usize,
        buf: &[Scalar],
        ar: &F,
    ) -> (r: usize)
        requires
            is_arithmetic(*ar),
            old(self).valid(),
            i < old(self).rows().len(),
            buf@.len() >= comm_size(dir, old(self).shape()),
        ensures
            final(self).valid(),
            final(self).shape() == old(self).shape(),
            r == comm_size(dir, old(self).shape()),
            final(self).rows() == old(self).rows().update(
                i as int,
                merged(
                    dir,
                    old(self).shape(),
                    old(self).rows()[i as int],
                    buf@.take(r as int),
                    summing(*ar),
                    old(self).columns@.len() as int,
                ),
            ),
    {
        let ghost before: Seq<Column> = self.columns@;
        let ghost shape: Seq<Field> = self.shape();
        let ghost row: Seq<Scalar> = self.rows()[i as int];
        let ghost n: nat = self.count();
        let ghost size: nat = comm_size(dir, shape);
        let ghost words: Seq<Scalar> = buf@.take(size as int);
        let mut pos: usize = 0;
        let mut k: usize = 0;
        while k < self.columns.len()
            invariant
                is_arithmetic(*ar),
                old(self).valid(),
                before == old(self).columns@,
                self.bare == old(self).bare,
                shape == old(self).shape(),
                n == old(self).count(),
                i < n,
                row == old(self).rows()[i as int],
                size == comm_size(dir, shape),
                words == buf@.take(size as int),
                buf@.len() >= size,
                k <= self.columns@.len() == before.len(),
                pos == comm_offset(dir, shape, k as int),
                forall|c: int|
                    0 <= c < before.len() ==> (#[trigger] self.columns@[c]).field == before[c].field,
                forall|c: int| k <= c < before.len() ==> self.columns@[c] == before[c],
                forall|c: int|
                    0 <= c < before.len() ==> #[trigger] Self::column_ok(self.columns@, c, n),
                forall|c: int, a: int|
                    0 <= c < before.len() && 0 <= a < n && a != i
                        ==> (#[trigger] self.columns@[c].values@[a])@ == before[c].values@[a]@,
                forall|c: int|
                    0 <= c < k ==> (#[trigger] self.columns@[c]).values@[i as int]@ == received(
                        dir,
                        shape,
                        row,
                        words,
                        summing(*ar),
                        c,
                    ),
            decreases self.columns.len() - k,
        {
            let field: Field = self.columns[k].field;
            let width: usize = field.width;
            let take: bool = match dir {
                CommDirection::Forward => field.forward,
                CommDirection::Reverse => field.reverse,
            };
            proof {
                assert(shape[k as int] == field);
                assert(Self::column_ok(self.columns@, k as int, n));
                assert(self.columns@[k as int] == before[k as int]);
                assert forall|c: int| 0 <= c < before.len() implies #[trigger] Self::column_ok(
                    before,
                    c,
                    n,
                ) by {}
                Self::lemma_row_part(before, i as int, n, k as int, before.len() as int);
                lemma_offset_grows(shape, k + 1, before.len() as int);
                lemma_offset_grows(shape, k as int, k + 1);
            }
            if take {
                let ghost mid: Seq<Column> = self.columns@;
                let mut fresh: Vec<Scalar> = Vec::with_capacity(width);
                let mut j: usize = 0;
                while j < width
                    invariant
                        is_arithmetic(*ar),
                        j <= width,
                        width == field.width,
                        k < self.columns@.len(),
                        self.columns@ == mid,
                        mid == self.columns@,
                        i < mid[k as int].values@.len(),
                        mid[k as int].values@[i as int]@.len() == width,
                        pos + width <= size <= buf@.len(),
                        words == buf@.take(size as int),
                        fresh@.len() == j,
                        forall|m: int|
                            0 <= m < j ==> #[trigger] fresh@[m] == if dir == CommDirection::Forward {
                                words[pos + m]
                            } else {
                                sum(*ar, mid[k as int].values@[i as int]@[m], words[pos + m])
                            },
                    decreases width - j,
                {
                    let new: Scalar = buf[pos + j];
                    let value: Scalar = match dir {
                        CommDirection::Forward => new,
                        CommDirection::Reverse => {
                            let old_value: Scalar = self.columns[k].values[i][j];
                            plus(ar, old_value, new)
                        },
                    };
                    fresh.push(value);
                    j = j + 1;
                }
                proof {
                    assert(fresh@ =~= received(dir, shape, row, words, summing(*ar), k as int));
                }
                self.columns[k].values.set(i, fresh);
                pos = pos + width;
                proof {
                    assert forall|c: int| 0 <= c < before.len() implies #[trigger] Self::column_ok(
                        self.columns@,
                        c,
                        n,
                    ) by {
                        assert(Self::column_ok(mid, c, n));
                        if c != k {
                            assert(self.columns@[c] == mid[c]);
                        }
                    }
                    assert forall|c: int, a: int|
                        0 <= c < before.len() && 0 <= a < n && a != i implies (
                    #[trigger] self.columns@[c].values@[a])@ == before[c].values@[a]@ by {
                        assert(mid[c].values@[a]@ == before[c].values@[a]@);
                    }
                }
            } else {
                assert(self.columns@[k as int].values@[i as int]@ == received(
                    dir,
                    shape,
                    row,
                    words,
                    summing(*ar),
                    k as int,
                ));
            }
            k = k + 1;
        }
        proof {
            assert(self.shape() =~= shape);
            if before.len() > 0 {
                assert(Self::column_ok(self.columns@, 0, n));
            }
            let all: int = before.len() as int;
            lemma_merged_rows(
                self.columns@,
                dir,
                shape,
                row,
                words,
                summing(*ar),
                i as int,
                all,
            );
            assert forall|a: int| 0 <= a < n && a != i implies row_of(self.columns@, a, all) == row_of(
                before,
                a,
                all,
            ) by {
                lemma_same_rows(self.columns@, before, a, all);
            }
            assert(self.rows() =~= old(self).rows().update(
                i as int,
                merged(dir, shape, row, words, summing(*ar), all),
            ));
        }
        pos
    }

    /// The length of a message.
    fn size_selected(&self, dir: CommDirection) -> (r: usize)
        requires
            self.valid(),
        ensures
            r == comm_size(dir, self.shape()),
    {
        let ghost shape: Seq<Field> = self.shape();
        let mut sum: usize = 0;
        let mut k: usize = 0;
        while k < self.columns.len()
            invariant
                self.valid(),
                shape == self.shape(),
                k <= self.columns@.len(),
                sum == comm_offset(dir, shape, k as int),
            decreases self.columns.len() - k,
        {
            let field: Field = self.columns[k].field;
            let take: bool = match dir {
                CommDirection::Forward => field.forward,
                CommDirection::Reverse => field.reverse,
            };
            proof {
                assert(shape[k as int] == field);
                lemma_offset_grows(shape, k + 1, shape.len() as int);
            }
            if take {
                sum = sum + field.width;
            }
            k = k + 1;
        }
        sum
    }
}

proof fn lemma_message_len(dir: CommDirection, shape: Seq<Field>, row: Seq<Scalar>, k: int)
    requires
        0 <= k <= shape.len(),
        row.len() == record_size(shape),
    ensures
        message(dir, shape, row, k).len() == comm_offset(dir, shape, k),
    decreases k,
{
    if k > 0 {
        lemma_message_len(dir, shape, row, k - 1);
        lemma_offset_grows(shape, k - 1, k);
        lemma_offset_grows(shape, k, shape.len() as int);
    }
}

proof fn lemma_merged_parts(
    shape: Seq<Field>,
    row: Seq<Scalar>,
    words: Seq<Scalar>,
    plus: spec_fn(Scalar, Scalar) -> Scalar,
    k: int,
)
    requires
        0 <= k <= shape.len(),
        row.len() == record_size(shape),
        words.len() == comm_size(CommDirection::Forward, shape),
    ensures
        merged(CommDirection::Forward, shape, row, words, plus, k).len() == offset_of(shape, k),
        forall|j: int|
            0 <= j < k ==> #[trigger] part(
                shape,
                merged(CommDirection::Forward, shape, row, words, plus, k),
                j,
            ) == received(CommDirection::Forward, shape, row, words, plus, j),
    decreases k,
{
    if k > 0 {
        let dir: CommDirection = CommDirection::Forward;
        lemma_merged_parts(shape, row, words, plus, k - 1);
        lemma_offset_grows(shape, k - 1, k);
        lemma_offset_grows(shape, k, shape.len() as int);
        let head: Seq<Scalar> = merged(dir, shape, row, words, plus, k - 1);
        let last: Seq<Scalar> = received(dir, shape, row, words, plus, k - 1);
        let whole: Seq<Scalar> = merged(dir, shape, row, words, plus, k);
        assert(last.len() == shape[k - 1].width);
        assert forall|j: int| 0 <= j < k implies #[trigger] part(shape, whole, j) == received(
            dir,
            shape,
            row,
            words,
            plus,
            j,
        ) by {
            lemma_offset_grows(shape, j, j + 1);
            if j < k - 1 {
                lemma_offset_grows(shape, j + 1, k - 1);
                assert(part(shape, whole, j) =~= part(shape, head, j));
            } else {
                assert(part(shape, whole, j) =~= last);
            }
        }
    }
}

proof fn lemma_message_arrives(
    shape: Seq<Field>,
    row: Seq<Scalar>,
    words: Seq<Scalar>,
    plus: spec_fn(Scalar, Scalar) -> Scalar,
    k: int,
)
    requires
        0 <= k <= shape.len(),
        row.len() == record_size(shape),
        words.len() == comm_size(CommDirection::Forward, shape),
    ensures
        message(
            CommDirection::Forward,
            shape,
            merged(CommDirection::Forward, shape, row, words, plus, shape.len() as int),
            k,
        ) == words.take(comm_offset(CommDirection::Forward, shape, k) as int),
    decreases k,
{
    let all: int = shape.len() as int;
    let new: Seq<Scalar> = merged(CommDirection::Forward, shape, row, words, plus, all);
    if k > 0 {
        lemma_message_arrives(shape, row, words, plus, k - 1);
        lemma_merged_parts(shape, row, words, plus, all);
        lemma_offset_grows(shape, k - 1, k);
        lemma_offset_grows(shape, k, all);
        assert(part(shape, new, k - 1) == received(
            CommDirection::Forward,
            shape,
            row,
            words,
            plus,
            k - 1,
        ));
    }
    assert(message(CommDirection::Forward, shape, new, k) =~= words.take(
        comm_offset(CommDirection::Forward, shape, k) as int,
    ));
}

proof fn lemma_same_rows(a: Seq<Column>, b: Seq<Column>, i: int, k: int)
    requires
        forall|c: int| 0 <= c < k ==> (#[trigger] a[c].values@[i])@ == b[c].values@[i]@,
    ensures
        row_of(a, i, k) == row_of(b, i, k),
    decreases k,
{
    if k > 0 {
        assert(a[k - 1].values@[i]@ == b[k - 1].values@[i]@);
        lemma_same_rows(a, b, i, k - 1);
    }
}

proof fn lemma_merged_rows(
    columns: Seq<Column>,
    dir: CommDirection,
    shape: Seq<Field>,
    row: Seq<Scalar>,
    words: Seq<Scalar>,
    plus: spec_fn(Scalar, Scalar) -> Scalar,
    i: int,
    k: int,
)
    requires
        forall|c: int|
            0 <= c < k ==> (#[trigger] columns[c]).values@[i]@ == received(
                dir,
                shape,
                row,
                words,
                plus,
                c,
            ),
    ensures
        row_of(columns, i, k) == merged(dir, shape, row, words, plus, k),
    decreases k,
{
    if k > 0 {
        assert(columns[k - 1].values@[i]@ == received(dir, shape, row, words, plus, k - 1));
        lemma_merged_rows(columns, dir, shape, row, words, plus, i, k - 1);
    }
}

/// Appends all of `more`.
pub fn append_all(buf: &mut Vec<Scalar>, more: &Vec<Scalar>)
    ensures
        final(buf)@ == old(buf)@ + more@,
{
    let ghost before: Seq<Scalar> = buf@;
    let mut j: usize = 0;
    assert(before + more@.take(0) =~= before);
    while j < more.len()
        invariant
            j <= more@.len(),
            buf@ == before + more@.take(j as int),
        decreases more.len() - j,
    {
        buf.push(more[j]);
        j = j + 1;
        assert(buf@ =~= before + more@.take(j as int));
    }
    assert(more@.take(j as int) =~= more@);
}

impl AtomData for ColumnStore {
    open spec fn shape(&self) -> Seq<Field> {
        shape_of(self.columns@)
    }

    open spec fn valid(&self) -> bool {
        &&& record_size(self.shape()) <= usize::MAX
        &&& forall|k: int|
            0 <= k < self.columns@.len() ==> #[trigger] Self::column_ok(
                self.columns@,
                k,
                self.count(),
            )
    }

    open spec fn rows(&self) -> Seq<Seq<Scalar>> {
        Seq::new(self.count(), |i: int| row_of(self.columns@, i, self.columns@.len() as int))
    }

    open spec fn lenient(&self) -> bool {
        false
    }

    open spec fn blank() -> Seq<Scalar> {
        Seq::empty()
    }

    open spec fn readable(shape: Seq<Field>, buf: Seq<Scalar>) -> bool {
        record_size(shape) <= buf.len()
    }

    open spec fn taken(shape: Seq<Field>, buf: Seq<Scalar>) -> nat {
        record_size(shape)
    }

    open spec fn read(shape: Seq<Field>, buf: Seq<Scalar>) -> Seq<Scalar> {
        buf.take(record_size(shape) as int)
    }

    open spec fn forward_part(shape: Seq<Field>, row: Seq<Scalar>) -> Seq<Scalar> {
        message(CommDirection::Forward, shape, row, shape.len() as int)
    }

    open spec fn with_forward(shape: Seq<Field>, row: Seq<Scalar>, words: Seq<Scalar>) -> Seq<Scalar> {
        merged(
            CommDirection::Forward,
            shape,
            row,
            words,
            |a: Scalar, b: Scalar| b,
            shape.len() as int,
        )
    }

    open spec fn forward_size(shape: Seq<Field>) -> nat {
        comm_size(CommDirection::Forward, shape)
    }

    open spec fn reverse_part(shape: Seq<Field>, row: Seq<Scalar>) -> Seq<Scalar> {
        message(CommDirection::Reverse, shape, row, shape.len() as int)
    }

    open spec fn with_reverse(
        shape: Seq<Field>,
        row: Seq<Scalar>,
        words: Seq<Scalar>,
        plus: spec_fn(Scalar, Scalar) -> Scalar,
    ) -> Seq<Scalar> {
        merged(CommDirection::Reverse, shape, row, words, plus, shape.len() as int)
    }

    open spec fn reverse_size(shape: Seq<Field>) -> nat {
        comm_size(CommDirection::Reverse, shape)
    }

    open spec fn zeroed(shape: Seq<Field>, row: Seq<Scalar>) -> Seq<Scalar> {
        cleared(shape, row, shape.len() as int)
    }

    proof fn record_round_trip(&self, i: int, rest: Seq<Scalar>) {
        Self::lemma_row_part(self.columns@, i, self.count(), 0, self.columns@.len() as int);
        let row: Seq<Scalar> = self.rows()[i];
        assert((row + rest).take(row.len() as int) =~= row);
    }

    proof fn message_sizes(&self, i: int) {
        let all: int = self.columns@.len() as int;
        Self::lemma_row_part(self.columns@, i, self.count(), 0, all);
        lemma_message_len(CommDirection::Forward, self.shape(), self.rows()[i], all);
        lemma_message_len(CommDirection::Reverse, self.shape(), self.rows()[i], all);
    }

    proof fn forward_arrives(&self, i: int, words: Seq<Scalar>) {
        let all: int = self.columns@.len() as int;
        let shape: Seq<Field> = self.shape();
        Self::lemma_row_part(self.columns@, i, self.count(), 0, all);
        lemma_merged_parts(shape, self.rows()[i], words, |a: Scalar, b: Scalar| b, all);
        lemma_message_arrives(shape, self.rows()[i], words, |a: Scalar, b: Scalar| b, all);
        assert(words.take(words.len() as int) =~= words);
    }

    fn truncate(&mut self, n: usize) {
        let ghost before: Seq<Column> = self.columns@;
        let ghost all: nat = self.count();
        let ghost left: nat = if n <= all {
            n as nat
        } else {
            all
        };
        let mut k: usize = 0;
        while k < self.columns.len()
            invariant
                old(self).valid(),
                before == old(self).columns@,
                self.bare == old(self).bare,
                all == old(self).count(),
                left == if n <= all {
                    n as nat
                } else {
                    all
                },
                k <= self.columns@.len() == before.len(),
                forall|c: int|
                    0 <= c < before.len() ==> (#[trigger] self.columns@[c]).field == before[c].field,
                forall|c: int| k <= c < before.len() ==> self.columns@[c] == before[c],
                forall|c: int|
                    0 <= c < k ==> (#[trigger] self.columns@[c]).values@ == before[c].values@.take(
                        left as int,
                    ),
            decreases self.columns.len() - k,
        {
            assert(Self::column_ok(before, k as int, all));
            assert(self.columns@[k as int] == before[k as int]);
            self.columns[k].values.truncate(n);
            assert(self.columns@[k as int].values@ =~= before[k as int].values@.take(left as int));
            k = k + 1;
        }
        self.bare = Ghost(left);
        proof {
            assert(self.shape() =~= old(self).shape());
            if before.len() > 0 {
                assert(Self::column_ok(before, 0, all));
                assert(self.columns@[0].values@ == before[0].values@.take(left as int));
            }
            assert forall|c: int| 0 <= c < before.len() implies #[trigger] Self::column_ok(
                self.columns@,
                c,
                left,
            ) by {
                assert(Self::column_ok(before, c, all));
            }
            assert forall|i: int| 0 <= i < left implies #[trigger] row_of(
                self.columns@,
                i,
                before.len() as int,
            ) == row_of(before, i, before.len() as int) by {
                assert forall|c: int| 0 <= c < before.len() implies (
                #[trigger] self.columns@[c].values@[i])@ == before[c].values@[i]@ by {
                    assert(Self::column_ok(before, c, all));
                    assert(self.columns@[c].values@ == before[c].values@.take(left as int));
                }
                lemma_same_rows(self.columns@, before, i, before.len() as int);
            }
            assert(self.rows() =~= old(self).rows().take(left as int));
            if n > all {
                assert(self.rows().take(all as int) =~= old(self).rows());
            }
        }
    }

    fn swap_remove(&mut self, i: usize) {
        let ghost before: Seq<Column> = self.columns@;
        let ghost all: nat = self.count();
        let mut k: usize = 0;
        while k < self.columns.len()
            invariant
                old(self).valid(),
                before == old(self).columns@,
                self.bare == old(self).bare,
                all == old(self).count(),
                i < all,
                k <= self.columns@.len() == before.len(),
                forall|c: int|
                    0 <= c < before.len() ==> (#[trigger] self.columns@[c]).field == before[c].field,
                forall|c: int| k <= c < before.len() ==> self.columns@[c] == before[c],
                forall|c: int|
                    0 <= c < k ==> (#[trigger] self.columns@[c]).values@ == swap_removed(
                        before[c].values@,
                        i as int,
                    ),
            decreases self.columns.len() - k,
        {
            assert(Self::column_ok(before, k as int, all));
            assert(self.columns@[k as int] == before[k as int]);
            self.columns[k].values.swap_remove(i);
            k = k + 1;
        }
        self.bare = Ghost((all - 1) as nat);
        proof {
            assert(self.shape() =~= old(self).shape());
            if before.len() > 0 {
                assert(Self::column_ok(before, 0, all));
                assert(self.columns@[0].values@ == swap_removed(before[0].values@, i as int));
            }
            assert forall|c: int| 0 <= c < before.len() implies #[trigger] Self::column_ok(
                self.columns@,
                c,
                (all - 1) as nat,
            ) by {
                assert(Self::column_ok(before, c, all));
                assert(self.columns@[c].values@ == swap_removed(before[c].values@, i as int));
            }
            assert(self.count() == (all - 1) as nat);
            assert forall|a: int| 0 <= a < all - 1 implies #[trigger] row_of(
                self.columns@,
                a,
                before.len() as int,
            ) == row_of(
                before,
                if a == i {
                    all - 1
                } else {
                    a
                },
                before.len() as int,
            ) by {
                let b: int = if a == i {
                    all - 1
                } else {
                    a
                };
                assert forall|c: int| 0 <= c < before.len() implies (
                #[trigger] self.columns@[c].values@[a])@ == before[c].values@[b]@ by {
                    assert(Self::column_ok(before, c, all));
                    assert(self.columns@[c].values@ == swap_removed(before[c].values@, i as int));
                }
                lemma_moved_rows(self.columns@, a, before, b, before.len() as int);
            }
            assert(self.rows() =~= swap_removed(old(self).rows(), i as int));
        }
    }

    fn pack(&self, i: usize, buf: &mut Vec<Scalar>) {
        let ghost before: Seq<Scalar> = buf@;
        let mut k: usize = 0;
        assert(before + row_of(self.columns@, i as int, 0) =~= before);
        while k < self.columns.len()
            invariant
                self.valid(),
                i < self.count(),
                k <= self.columns@.len(),
                buf@ == before + row_of(self.columns@, i as int, k as int),
            decreases self.columns.len() - k,
        {
            assert(Self::column_ok(self.columns@, k as int, self.count()));
            append_all(buf, &self.columns[k].values[i]);
            k = k + 1;
            assert(buf@ =~= before + row_of(self.columns@, i as int, k as int));
        }
    }

    fn unpack(&mut self, buf: &[Scalar]) -> (r: usize) {
        let ghost before: Seq<Column> = self.columns@;
        let ghost shape: Seq<Field> = self.shape();
        let ghost all: nat = self.count();
        let mut pos: usize = 0;
        let mut k: usize = 0;
        while k < self.columns.len()
            invariant
                old(self).valid(),
                before == old(self).columns@,
                self.bare == old(self).bare,
                shape == old(self).shape(),
                all == old(self).count(),
                record_size(shape) <= buf@.len(),
                k <= self.columns@.len() == before.len(),
                pos == offset_of(shape, k as int),
                forall|c: int|
                    0 <= c < before.len() ==> (#[trigger] self.columns@[c]).field == before[c].field,
                forall|c: int| k <= c < before.len() ==> self.columns@[c] == before[c],
                forall|c: int|
                    0 <= c < k ==> (#[trigger] self.columns@[c]).values@.len() == all + 1
                        && self.columns@[c].values@[all as int]@ == buf@.subrange(
                        offset_of(shape, c) as int,
                        offset_of(shape, c + 1) as int,
                    ),
                forall|c: int, a: int|
                    0 <= c < k && 0 <= a < all ==> (#[trigger] self.columns@[c].values@[a])
                        == before[c].values@[a],
            decreases self.columns.len() - k,
        {
            let width: usize = self.columns[k].field.width;
            proof {
                assert(self.columns@[k as int] == before[k as int]);
                assert(shape[k as int] == before[k as int].field);
                assert(Self::column_ok(before, k as int, all));
                lemma_offset_grows(shape, k + 1, before.len() as int);
            }
            let mut value: Vec<Scalar> = Vec::with_capacity(width);
            let mut j: usize = 0;
            while j < width
                invariant
                    j <= width,
                    pos + width <= buf@.len(),
                    value@ == buf@.subrange(pos as int, pos + j),
                decreases width - j,
            {
                value.push(buf[pos + j]);
                j = j + 1;
                assert(value@ =~= buf@.subrange(pos as int, pos + j));
            }
            self.columns[k].values.push(value);
            pos = pos + width;
            k = k + 1;
        }
        self.bare = Ghost(all + 1);
        proof {
            assert(self.shape() =~= shape);
            if before.len() > 0 {
                assert(self.columns@[0].values@.len() == all + 1);
            }
            assert forall|c: int| 0 <= c < before.len() implies #[trigger] Self::column_ok(
                self.columns@,
                c,
                all + 1,
            ) by {
                assert(Self::column_ok(before, c, all));
                assert(shape[c] == before[c].field);
                assert(self.columns@[c].values@.len() == all + 1);
                lemma_offset_grows(shape, c + 1, before.len() as int);
            }
            assert forall|a: int| 0 <= a < all implies #[trigger] row_of(
                self.columns@,
                a,
                before.len() as int,
            ) == row_of(before, a, before.len() as int) by {
                assert forall|c: int| 0 <= c < before.len() implies (
                #[trigger] self.columns@[c].values@[a])@ == before[c].values@[a]@ by {
                    assert(Self::column_ok(before, c, all));
                }
                lemma_same_rows(self.columns@, before, a, before.len() as int);
            }
            lemma_read_row(self.columns@, shape, buf@, all as int, before.len() as int);
            assert(self.rows() =~= old(self).rows().push(buf@.take(record_size(shape) as int)));
        }
        pos
    }

    fn measure(&self, buf: &[Scalar]) -> (r: Option<usize>) {
        let mut sum: usize = 0;
        let mut k: usize = 0;
        while k < self.columns.len()
            invariant
                self.valid(),
                k <= self.columns@.len(),
                sum == offset_of(self.shape(), k as int),
            decreases self.columns.len() - k,
        {
            proof {
                lemma_offset_grows(self.shape(), k + 1, self.columns@.len() as int);
                assert(self.shape()[k as int] == self.columns@[k as int].field);
            }
            sum = sum + self.columns[k].field.width;
            k = k + 1;
        }
        if sum <= buf.len() {
            Some(sum)
        } else {
            None
        }
    }

    fn apply_permutation(&mut self, perm: &[usize], n: usize) {
        let ghost before: Seq<Column> = self.columns@;
        let ghost all: nat = self.count();
        let mut k: usize = 0;
        while k < self.columns.len()
            invariant
                old(self).valid(),
                before == old(self).columns@,
                self.bare == old(self).bare,
                all == old(self).count(),
                perm@.len() == n <= all,
                forall|i: int| 0 <= i < n ==> #[trigger] perm@[i] < all,
                k <= self.columns@.len() == before.len(),
                forall|c: int|
                    0 <= c < before.len() ==> (#[trigger] self.columns@[c]).field == before[c].field,
                forall|c: int| k <= c < before.len() ==> self.columns@[c] == before[c],
                forall|c: int|
                    0 <= c < k ==> gathered(
                        (#[trigger] self.columns@[c]).values@,
                        before[c].values@,
                        perm@,
                    ),
            decreases self.columns.len() - k,
        {
            assert(Self::column_ok(before, k as int, all));
            assert(self.columns@[k as int] == before[k as int]);
            gather_lists(&mut self.columns[k].values, perm, n);
            k = k + 1;
        }
        proof {
            assert(self.shape() =~= old(self).shape());
            if before.len() > 0 {
                assert(Self::column_ok(before, 0, all));
                assert(gathered(self.columns@[0].values@, before[0].values@, perm@));
            }
            assert forall|c: int| 0 <= c < before.len() implies #[trigger] Self::column_ok(
                self.columns@,
                c,
                all,
            ) by {
                assert(Self::column_ok(before, c, all));
                assert(gathered(self.columns@[c].values@, before[c].values@, perm@));
            }
            assert forall|a: int| 0 <= a < all implies #[trigger] row_of(
                self.columns@,
                a,
                before.len() as int,
            ) == permuted(old(self).rows(), perm@)[a] by {
                let b: int = if a < n {
                    perm@[a] as int
                } else {
                    a
                };
                assert forall|c: int| 0 <= c < before.len() implies (
                #[trigger] self.columns@[c].values@[a])@ == before[c].values@[b]@ by {
                    assert(Self::column_ok(before, c, all));
                    assert(gathered(self.columns@[c].values@, before[c].values@, perm@));
                }
                lemma_moved_rows(self.columns@, a, before, b, before.len() as int);
            }
            assert(self.rows() =~= permuted(old(self).rows(), perm@));
        }
    }

    fn pack_forward(&self, i: usize, buf: &mut Vec<Scalar>) {
        self.pack_selected(CommDirection::Forward, i, buf);
    }

    fn unpack_forward(&mut self, i: usize, buf: &[Scalar]) -> (r: usize) {
        let second = |op: Op, a: Scalar, b: Scalar, c: Scalar| -> (r: Scalar)
            ensures
                r == b,
            { b };
        let ghost shape: Seq<Field> = self.shape();
        let ghost row: Seq<Scalar> = self.rows()[i as int];
        let used: usize = self.unpack_selected(CommDirection::Forward, i, buf, &second);
        proof {
            lemma_forward_ignores_sum(
                shape,
                row,
                buf@.take(used as int),
                summing(second),
                |a: Scalar, b: Scalar| b,
                shape.len() as int,
            );
        }
        used
    }

    fn pack_reverse(&self, i: usize, buf: &mut Vec<Scalar>) {
        self.pack_selected(CommDirection::Reverse, i, buf);
    }

    fn unpack_reverse<F: Fn(Op, Scalar, Scalar, Scalar) -> Scalar>(&mut self, i: usize, buf: &[Scalar], ar: &F) -> (r:
        usize) {
        self.unpack_selected(CommDirection::Reverse, i, buf, ar)
    }

    fn zero(&mut self, n: usize)
        ensures
            final(self).columns@.len() == old(self).columns@.len(),
            forall|k: int|
                0 <= k < old(self).columns@.len() ==> {
                    let c = #[trigger] final(self).columns@[k];
                    &&& c.field == old(self).columns@[k].field
                    &&& !c.field.zero ==> c == old(self).columns@[k]
                    &&& c.field.zero ==> c.values@.len() == n && forall|i: int|
                        0 <= i < n ==> (#[trigger] c.values@[i])@ == zeros(c.field.width as nat)
                },
    {
        let ghost before: Seq<Column> = self.columns@;
        let ghost all: nat = self.count();
        let ghost shape: Seq<Field> = self.shape();
        let mut k: usize = 0;
        while k < self.columns.len()
            invariant
                old(self).valid(),
                before == old(self).columns@,
                self.bare == old(self).bare,
                k <= self.columns@.len() == before.len(),
                forall|c: int|
                    0 <= c < before.len() ==> (#[trigger] self.columns@[c]).field == before[c].field,
                forall|c: int| k <= c < before.len() ==> self.columns@[c] == before[c],
                forall|c: int|
                    0 <= c < k && !before[c].field.zero ==> (#[trigger] self.columns@[c]) == before[c],
                forall|c: int|
                    0 <= c < k && before[c].field.zero ==> (#[trigger] self.columns@[c]).values@.len()
                        == n && forall|i: int|
                        0 <= i < n ==> (#[trigger] self.columns@[c].values@[i])@ == zeros(
                            before[c].field.width as nat,
                        ),
            decreases self.columns.len() - k,
        {
            assert(self.columns@[k as int] == before[k as int]);
            if self.columns[k].field.zero {
                let width: usize = self.columns[k].field.width;
                let fresh: Vec<Vec<Scalar>> = zero_lists(n, width);
                self.columns[k].values = fresh;
            }
            k = k + 1;
        }
        proof {
            assert(self.shape() =~= shape);
            if n == all {
                assert forall|c: int| 0 <= c < before.len() implies #[trigger] Self::column_ok(
                    self.columns@,
                    c,
                    all,
                ) by {
                    assert(Self::column_ok(before, c, all));
                    assert(self.columns@[c].field == before[c].field);
                }
                if before.len() > 0 {
                    assert(Self::column_ok(before, 0, all));
                    assert(Self::column_ok(self.columns@, 0, all));
                }
                assert forall|a: int| 0 <= a < all implies #[trigger] row_of(
                    self.columns@,
                    a,
                    before.len() as int,
                ) == cleared(shape, old(self).rows()[a], before.len() as int) by {
                    assert forall|c: int| 0 <= c < before.len() implies (
                    #[trigger] self.columns@[c]).values@[a]@ == if shape[c].zero {
                        zeros(shape[c].width as nat)
                    } else {
                        part(shape, old(self).rows()[a], c)
                    } by {
                        Self::lemma_row_part(before, a, all, c, before.len() as int);
                        assert(self.columns@[c].field == before[c].field);
                    }
                    lemma_cleared_rows(
                        self.columns@,
                        shape,
                        old(self).rows()[a],
                        a,
                        before.len() as int,
                    );
                }
                assert(self.rows() =~= old(self).rows().map_values(
                    |row: Seq<Scalar>| Self::zeroed(shape, row),
                ));
            }
        }
    }

    fn forward_comm_size(&self) -> (r: usize) {
        self.size_selected(CommDirection::Forward)
    }

    fn reverse_comm_size(&self) -> (r: usize) {
        self.size_selected(CommDirection::Reverse)
    }
}

/// The lists of `new` are those of `old_lists`, gathered through `perm`.
pub open spec fn gathered(
    new: Seq<Vec<Scalar>>,
    old_lists: Seq<Vec<Scalar>>,
    perm: Seq<usize>,
) -> bool {
    &&& new.len() == old_lists.len()
    &&& forall|i: int|
        0 <= i < new.len() ==> (#[trigger] new[i])@ == old_lists[if i < perm.len() {
            perm[i] as int
        } else {
            i
        }]@
}

fn gather_lists(lists: &mut Vec<Vec<Scalar>>, perm: &[usize], n: usize)
    requires
        perm@.len() == n <= old(lists)@.len(),
        forall|i: int| 0 <= i < n ==> #[trigger] perm@[i] < old(lists)@.len(),
    ensures
        gathered(final(lists)@, old(lists)@, perm@),
{
    let ghost before: Seq<Vec<Scalar>> = lists@;
    let mut scratch: Vec<Vec<Scalar>> = Vec::with_capacity(n);
    let mut i: usize = 0;
    while i < n
        invariant
            i <= n,
            perm@.len() == n,
            lists@ == before,
            forall|k: int| 0 <= k < n ==> #[trigger] perm@[k] < before.len(),
            scratch@.len() == i,
            forall|k: int| 0 <= k < i ==> (#[trigger] scratch@[k])@ == before[perm@[k] as int]@,
        decreases n - i,
    {
        let mut copy: Vec<Scalar> = Vec::new();
        append_all(&mut copy, &lists[perm[i]]);
        assert(copy@ =~= before[perm@[i as int] as int]@);
        scratch.push(copy);
        i = i + 1;
    }
    while i > 0
        invariant
            i <= n <= before.len(),
            perm@.len() == n,
            scratch@.len() == i,
            lists@.len() == before.len(),
            forall|k: int| 0 <= k < i ==> (#[trigger] scratch@[k])@ == before[perm@[k] as int]@,
            forall|k: int| i <= k < n ==> (#[trigger] lists@[k])@ == before[perm@[k] as int]@,
            forall|k: int| n <= k < before.len() ==> lists@[k] == before[k],
        decreases i,
    {
        i = i - 1;
        let list: Vec<Scalar> = scratch.pop().unwrap();
        lists.set(i, list);
    }
}

fn zero_lists(n: usize, width: usize) -> (r: Vec<Vec<Scalar>>)
    ensures
        r@.len() == n,
        forall|i: int| 0 <= i < n ==> (#[trigger] r@[i])@ == zeros(width as nat),
{
    let mut out: Vec<Vec<Scalar>> = Vec::with_capacity(n);
    let mut i: usize = 0;
    while i < n
        invariant
            i <= n,
            out@.len() == i,
            forall|k: int| 0 <= k < i ==> (#[trigger] out@[k])@ == zeros(width as nat),
        decreases n - i,
    {
        let mut list: Vec<Scalar> = Vec::with_capacity(width);
        let mut j: usize = 0;
        while j < width
            invariant
                j <= width,
                list@ == zeros(j as nat),
            decreases width - j,
        {
            list.push(Scalar::zero());
            j = j + 1;
            assert(list@ =~= zeros(j as nat));
        }
        out.push(list);
        i = i + 1;
    }
    out
}

proof fn lemma_moved_rows(a: Seq<Column>, i: int, b: Seq<Column>, j: int, k: int)
    requires
        forall|c: int| 0 <= c < k ==> (#[trigger] a[c].values@[i])@ == b[c].values@[j]@,
    ensures
        row_of(a, i, k) == row_of(b, j, k),
    decreases k,
{
    if k > 0 {
        assert(a[k - 1].values@[i]@ == b[k - 1].values@[j]@);
        lemma_moved_rows(a, i, b, j, k - 1);
    }
}

proof fn lemma_read_row(columns: Seq<Column>, shape: Seq<Field>, buf: Seq<Scalar>, i: int, k: int)
    requires
        0 <= k <= shape.len(),
        record_size(shape) <= buf.len(),
        forall|c: int|
            0 <= c < k ==> (#[trigger] columns[c]).values@[i]@ == buf.subrange(
                offset_of(shape, c) as int,
                offset_of(shape, c + 1) as int,
            ),
    ensures
        row_of(columns, i, k) == buf.take(offset_of(shape, k) as int),
    decreases k,
{
    lemma_offset_grows(shape, k, shape.len() as int);
    if k > 0 {
        lemma_read_row(columns, shape, buf, i, k - 1);
        assert(columns[k - 1].values@[i]@ == buf.subrange(
            offset_of(shape, k - 1) as int,
            offset_of(shape, k) as int,
        ));
        lemma_offset_grows(shape, k - 1, k);
    }
    assert(row_of(columns, i, k) =~= buf.take(offset_of(shape, k) as int));
}

proof fn lemma_cleared_rows(
    columns: Seq<Column>,
    shape: Seq<Field>,
    row: Seq<Scalar>,
    i: int,
    k: int,
)
    requires
        forall|c: int|
            0 <= c < k ==> (#[trigger] columns[c]).values@[i]@ == if shape[c].zero {
                zeros(shape[c].width as nat)
            } else {
                part(shape, row, c)
            },
    ensures
        row_of(columns, i, k) == cleared(shape, row, k),
    decreases k,
{
    if k > 0 {
        assert(columns[k - 1].values@[i]@ == if shape[k - 1].zero {
            zeros(shape[k - 1].width as nat)
        } else {
            part(shape, row, k - 1)
        });
        lemma_cleared_rows(columns, shape, row, i, k - 1);
    }
}

proof fn lemma_forward_ignores_sum(
    shape: Seq<Field>,
    row: Seq<Scalar>,
    words: Seq<Scalar>,
    p: spec_fn(Scalar, Scalar) -> Scalar,
    q: spec_fn(Scalar, Scalar) -> Scalar,
    k: int,
)
    ensures
        merged(CommDirection::Forward, shape, row, words, p, k) == merged(
            CommDirection::Forward,
            shape,
            row,
            words,
            q,
            k,
        ),
    decreases k,
{
    if k > 0 {
        lemma_forward_ignores_sum(shape, row, words, p, q, k - 1);
    }
}

impl ColumnStore {
    /// A record is made of what its columns hold for the atom, column after column.
    pub proof fn records_are_made_of_columns(&self, i: int, k: int)
        requires
            self.valid(),
            0 <= i < self.rows().len(),
            0 <= k < self.columns@.len(),
        ensures
            self.rows()[i].len() == record_size(self.shape()),
            part(self.shape(), self.rows()[i], k) == self.columns@[k].values@[i]@,
            self.shape()[k] == self.columns@[k].field,
    {
        Self::lemma_row_part(self.columns@, i, self.count(), k, self.columns@.len() as int);
    }
}

} // verus!
