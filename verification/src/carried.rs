//! What owners and ghosts tell each other of their columns.

use crate::atom_data::{AtomData, Field};
use crate::columns::{
    cleared, comm_offset, comm_size, merged, message, offset_of, part, received, record_size,
    CommDirection, ColumnStore,
};
use crate::exact::{lemma_constants, num};
use crate::scalar::Scalar;
use vstd::prelude::*;

verus! {

/// The columns that travel this way.
pub open spec fn travels(dir: CommDirection, f: Field) -> bool {
    dir == CommDirection::Forward && f.forward || dir == CommDirection::Reverse && f.reverse
}

proof fn lemma_offsets(dir: CommDirection, shape: Seq<Field>, a: int, b: int)
    requires
        0 <= a <= b <= shape.len(),
    ensures
        offset_of(shape, a) <= offset_of(shape, b),
        comm_offset(dir, shape, a) <= comm_offset(dir, shape, b),
    decreases b,
{
    if a < b {
        lemma_offsets(dir, shape, a, b - 1);
    }
}

/// The part of a message that speaks of a column is that column's part of the record.
proof fn lemma_message_part(
    dir: CommDirection,
    shape: Seq<Field>,
    row: Seq<Scalar>,
    c: int,
    k: int,
)
    requires
        0 <= c < k <= shape.len(),
        row.len() == record_size(shape),
        travels(dir, shape[c]),
    ensures
        message(dir, shape, row, k).len() == comm_offset(dir, shape, k),
        message(dir, shape, row, k).subrange(
            comm_offset(dir, shape, c) as int,
            comm_offset(dir, shape, c + 1) as int,
        ) == part(shape, row, c),
    decreases k,
{
    lemma_message_length(dir, shape, row, k);
    lemma_message_length(dir, shape, row, k - 1);
    lemma_offsets(dir, shape, c + 1, k);
    lemma_offsets(dir, shape, c, c + 1);
    lemma_offsets(dir, shape, c + 1, shape.len() as int);
    let whole: Seq<Scalar> = message(dir, shape, row, k);
    let (a, b): (int, int) = (
        comm_offset(dir, shape, c) as int,
        comm_offset(dir, shape, c + 1) as int,
    );
    if c < k - 1 {
        lemma_offsets(dir, shape, c + 1, k - 1);
        lemma_message_part(dir, shape, row, c, k - 1);
        assert(whole.subrange(a, b) =~= message(dir, shape, row, k - 1).subrange(a, b));
    } else {
        assert(whole.subrange(a, b) =~= part(shape, row, c));
    }
}

proof fn lemma_message_length(dir: CommDirection, shape: Seq<Field>, row: Seq<Scalar>, k: int)
    requires
        0 <= k <= shape.len(),
        row.len() == record_size(shape),
    ensures
        message(dir, shape, row, k).len() == comm_offset(dir, shape, k),
    decreases k,
{
    if k > 0 {
        lemma_message_length(dir, shape, row, k - 1);
        lemma_offsets(dir, shape, k - 1, k);
        lemma_offsets(dir, shape, k, shape.len() as int);
    }
}

/// Column `c` of what a record becomes.
proof fn lemma_merged_part(
    dir: CommDirection,
    shape: Seq<Field>,
    row: Seq<Scalar>,
    words: Seq<Scalar>,
    plus: spec_fn(Scalar, Scalar) -> Scalar,
    c: int,
    k: int,
)
    requires
        0 <= k <= shape.len(),
        row.len() == record_size(shape),
        words.len() == comm_size(dir, shape),
    ensures
        merged(dir, shape, row, words, plus, k).len() == offset_of(shape, k),
        0 <= c < k ==> part(shape, merged(dir, shape, row, words, plus, k), c) == received(
            dir,
            shape,
            row,
            words,
            plus,
            c,
        ),
    decreases k,
{
    if k > 0 {
        lemma_merged_part(dir, shape, row, words, plus, c, k - 1);
        lemma_offsets(dir, shape, k - 1, k);
        lemma_offsets(dir, shape, k, shape.len() as int);
        let whole: Seq<Scalar> = merged(dir, shape, row, words, plus, k);
        let before: Seq<Scalar> = merged(dir, shape, row, words, plus, k - 1);
        assert(received(dir, shape, row, words, plus, k - 1).len() == shape[k - 1].width);
        if 0 <= c < k - 1 {
            lemma_offsets(dir, shape, c, c + 1);
            lemma_offsets(dir, shape, c + 1, k - 1);
            assert(part(shape, whole, c) =~= part(shape, before, c));
        } else if c == k - 1 {
            assert(part(shape, whole, c) =~= received(dir, shape, row, words, plus, c));
        }
    }
}

/// A forward message gives a ghost the owner's values in the columns that travel
/// forward, and leaves the ghost's other columns alone.
pub proof fn forward_messages_carry_the_owners_columns(
    shape: Seq<Field>,
    owner: Seq<Scalar>,
    ghost_row: Seq<Scalar>,
    c: int,
)
    requires
        0 <= c < shape.len(),
        owner.len() == record_size(shape),
        ghost_row.len() == record_size(shape),
    ensures
        ({
            let words = ColumnStore::forward_part(shape, owner);
            let new = ColumnStore::with_forward(shape, ghost_row, words);
            &&& new.len() == record_size(shape)
            &&& part(shape, new, c) == if shape[c].forward {
                part(shape, owner, c)
            } else {
                part(shape, ghost_row, c)
            }
        }),
{
    let dir: CommDirection = CommDirection::Forward;
    let all: int = shape.len() as int;
    let words: Seq<Scalar> = ColumnStore::forward_part(shape, owner);
    lemma_message_length(dir, shape, owner, all);
    lemma_merged_part(dir, shape, ghost_row, words, |a: Scalar, b: Scalar| b, c, all);
    if shape[c].forward {
        lemma_message_part(dir, shape, owner, c, all);
    }
}

/// A reverse message adds the ghost's values to the owner's in the columns that travel
/// back, and leaves the owner's other columns alone.
pub proof fn reverse_messages_add_the_ghosts_columns(
    shape: Seq<Field>,
    owner: Seq<Scalar>,
    ghost_row: Seq<Scalar>,
    plus: spec_fn(Scalar, Scalar) -> Scalar,
    c: int,
    j: int,
)
    requires
        0 <= c < shape.len(),
        0 <= j < shape[c].width,
        owner.len() == record_size(shape),
        ghost_row.len() == record_size(shape),
    ensures
        ({
            let words = ColumnStore::reverse_part(shape, ghost_row);
            let new = ColumnStore::with_reverse(shape, owner, words, plus);
            let (old_value, given) = (part(shape, owner, c)[j], part(shape, ghost_row, c)[j]);
            &&& new.len() == record_size(shape)
            &&& part(shape, new, c)[j] == if shape[c].reverse {
                plus(old_value, given)
            } else {
                old_value
            }
        }),
{
    let dir: CommDirection = CommDirection::Reverse;
    let all: int = shape.len() as int;
    let words: Seq<Scalar> = ColumnStore::reverse_part(shape, ghost_row);
    lemma_message_length(dir, shape, ghost_row, all);
    lemma_merged_part(dir, shape, owner, words, plus, c, all);
    lemma_offsets(dir, shape, c, c + 1);
    lemma_offsets(dir, shape, c + 1, all);
    if shape[c].reverse {
        lemma_message_part(dir, shape, ghost_row, c, all);
    }
}

proof fn lemma_cleared_part(shape: Seq<Field>, row: Seq<Scalar>, c: int, k: int)
    requires
        0 <= k <= shape.len(),
        row.len() == record_size(shape),
    ensures
        cleared(shape, row, k).len() == offset_of(shape, k),
        0 <= c < k && !shape[c].zero ==> part(shape, cleared(shape, row, k), c) == part(
            shape,
            row,
            c,
        ),
        0 <= c < k && shape[c].zero ==> forall|j: int|
            0 <= j < shape[c].width ==> #[trigger] part(shape, cleared(shape, row, k), c)[j]
                == Scalar::zero(),
    decreases k,
{
    if k > 0 {
        let dir: CommDirection = CommDirection::Forward;
        lemma_cleared_part(shape, row, c, k - 1);
        lemma_offsets(dir, shape, k - 1, k);
        lemma_offsets(dir, shape, k, shape.len() as int);
        let (whole, before): (Seq<Scalar>, Seq<Scalar>) = (
            cleared(shape, row, k),
            cleared(shape, row, k - 1),
        );
        if 0 <= c < k - 1 {
            lemma_offsets(dir, shape, c, c + 1);
            lemma_offsets(dir, shape, c + 1, k - 1);
            assert(part(shape, whole, c) =~= part(shape, before, c));
        } else if c == k - 1 && !shape[c].zero {
            assert(part(shape, whole, c) =~= part(shape, row, c));
        }
    }
}

/// Clearing sets the accumulators to zero and leaves all other columns alone.
pub proof fn clearing_touches_only_accumulators(
    shape: Seq<Field>,
    row: Seq<Scalar>,
    c: int,
    j: int,
)
    requires
        0 <= c < shape.len(),
        0 <= j < shape[c].width,
        row.len() == record_size(shape),
    ensures
        ({
            let new = ColumnStore::zeroed(shape, row);
            &&& new.len() == record_size(shape)
            &&& shape[c].zero ==> num(part(shape, new, c)[j]) == 0real
            &&& !shape[c].zero ==> part(shape, new, c)[j] == part(shape, row, c)[j]
        }),
{
    lemma_constants();
    lemma_cleared_part(shape, row, c, shape.len() as int);
}

} // verus!
