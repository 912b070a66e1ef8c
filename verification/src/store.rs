//! The stores that one registry can hold side by side.

use crate::atom_data::{AtomData, Field};
use crate::bond::BondStore;
use crate::columns::ColumnStore;
use crate::scalar::{Op, Scalar};
use vstd::prelude::*;

verus! {

/// Extension data of either form.
pub enum Store {
    Bonds(BondStore),
    Columns(ColumnStore),
}

/// The field that stands in front of the columns of a store and tells its form.
pub open spec fn form(bonds: bool) -> Field {
    Field {
        width: if bonds {
            0usize
        } else {
            1usize
        },
        forward: false,
        reverse: false,
        zero: false,
    }
}

/// The columns are those of a bond store.
pub open spec fn of_bonds(shape: Seq<Field>) -> bool {
    shape.len() > 0 && shape[0] == form(true)
}

/// The columns without the field in front.
pub open spec fn inner(shape: Seq<Field>) -> Seq<Field> {
    shape.skip(1)
}

proof fn lemma_inner(bonds: bool, shape: Seq<Field>)
    ensures
        inner(seq![form(bonds)] + shape) == shape,
        of_bonds(seq![form(bonds)] + shape) == bonds,
{
    assert(inner(seq![form(bonds)] + shape) =~= shape);
}

impl AtomData for Store {
    open spec fn shape(&self) -> Seq<Field> {
        match *self {
            Store::Bonds(b) => seq![form(true)] + b.shape(),
            Store::Columns(c) => seq![form(false)] + c.shape(),
        }
    }

    open spec fn valid(&self) -> bool {
        match *self {
            Store::Bonds(b) => b.valid(),
            Store::Columns(c) => c.valid(),
        }
    }

    open spec fn rows(&self) -> Seq<Seq<Scalar>> {
        match *self {
            Store::Bonds(b) => b.rows(),
            Store::Columns(c) => c.rows(),
        }
    }

    open spec fn lenient(&self) -> bool {
        match *self {
            Store::Bonds(b) => b.lenient(),
            Store::Columns(c) => c.lenient(),
        }
    }

    open spec fn blank() -> Seq<Scalar> {
        BondStore::blank()
    }

    open spec fn readable(shape: Seq<Field>, buf: Seq<Scalar>) -> bool {
        if of_bonds(shape) {
            BondStore::readable(inner(shape), buf)
        } else {
            ColumnStore::readable(inner(shape), buf)
        }
    }

    open spec fn taken(shape: Seq<Field>, buf: Seq<Scalar>) -> nat {
        if of_bonds(shape) {
            BondStore::taken(inner(shape), buf)
        } else {
            ColumnStore::taken(inner(shape), buf)
        }
    }

    open spec fn read(shape: Seq<Field>, buf: Seq<Scalar>) -> Seq<Scalar> {
        if of_bonds(shape) {
            BondStore::read(inner(shape), buf)
        } else {
            ColumnStore::read(inner(shape), buf)
        }
    }

    open spec fn forward_part(shape: Seq<Field>, row: Seq<Scalar>) -> Seq<Scalar> {
        if of_bonds(shape) {
            BondStore::forward_part(inner(shape), row)
        } else {
            ColumnStore::forward_part(inner(shape), row)
        }
    }

    open spec fn with_forward(shape: Seq<Field>, row: Seq<Scalar>, words: Seq<Scalar>) -> Seq<Scalar> {
        if of_bonds(shape) {
            BondStore::with_forward(inner(shape), row, words)
        } else {
            ColumnStore::with_forward(inner(shape), row, words)
        }
    }

    open spec fn forward_size(shape: Seq<Field>) -> nat {
        if of_bonds(shape) {
            BondStore::forward_size(inner(shape))
        } else {
            ColumnStore::forward_size(inner(shape))
        }
    }

    open spec fn reverse_part(shape: Seq<Field>, row: Seq<Scalar>) -> Seq<Scalar> {
        if of_bonds(shape) {
            BondStore::reverse_part(inner(shape), row)
        } else {
            ColumnStore::reverse_part(inner(shape), row)
        }
    }

    open spec fn with_reverse(
        shape: Seq<Field>,
        row: Seq<Scalar>,
        words: Seq<Scalar>,
        plus: spec_fn(Scalar, Scalar) -> Scalar,
    ) -> Seq<Scalar> {
        if of_bonds(shape) {
            BondStore::with_reverse(inner(shape), row, words, plus)
        } else {
            ColumnStore::with_reverse(inner(shape), row, words, plus)
        }
    }

    open spec fn reverse_size(shape: Seq<Field>) -> nat {
        if of_bonds(shape) {
            BondStore::reverse_size(inner(shape))
        } else {
            ColumnStore::reverse_size(inner(shape))
        }
    }

    open spec fn zeroed(shape: Seq<Field>, row: Seq<Scalar>) -> Seq<Scalar> {
        if of_bonds(shape) {
            BondStore::zeroed(inner(shape), row)
        } else {
            ColumnStore::zeroed(inner(shape), row)
        }
    }

    proof fn record_round_trip(&self, i: int, rest: Seq<Scalar>) {
        match *self {
            Store::Bonds(b) => {
                lemma_inner(true, b.shape());
                b.record_round_trip(i, rest);
            },
            Store::Columns(c) => {
                lemma_inner(false, c.shape());
                c.record_round_trip(i, rest);
            },
        }
    }

    proof fn message_sizes(&self, i: int) {
        match *self {
            Store::Bonds(b) => {
                lemma_inner(true, b.shape());
                b.message_sizes(i);
            },
            Store::Columns(c) => {
                lemma_inner(false, c.shape());
                c.message_sizes(i);
            },
        }
    }

    proof fn forward_arrives(&self, i: int, words: Seq<Scalar>) {
        match *self {
            Store::Bonds(b) => {
                lemma_inner(true, b.shape());
                b.forward_arrives(i, words);
            },
            Store::Columns(c) => {
                lemma_inner(false, c.shape());
                c.forward_arrives(i, words);
            },
        }
    }

    fn truncate(&mut self, n: usize) {
        match self {
            Store::Bonds(b) => b.truncate(n),
            Store::Columns(c) => c.truncate(n),
        }
    }

    fn swap_remove(&mut self, i: usize) {
        match self {
            Store::Bonds(b) => b.swap_remove(i),
            Store::Columns(c) => c.swap_remove(i),
        }
    }

    fn pack(&self, i: usize, buf: &mut Vec<Scalar>) {
        match self {
            Store::Bonds(b) => b.pack(i, buf),
            Store::Columns(c) => c.pack(i, buf),
        }
    }

    fn unpack(&mut self, buf: &[Scalar]) -> (r: usize) {
        match self {
            Store::Bonds(b) => {
                proof {
                    lemma_inner(true, b.shape());
                }
                b.unpack(buf)
            },
            Store::Columns(c) => {
                proof {
                    lemma_inner(false, c.shape());
                }
                c.unpack(buf)
            },
        }
    }

    fn measure(&self, buf: &[Scalar]) -> (r: Option<usize>) {
        match self {
            Store::Bonds(b) => {
                proof {
                    lemma_inner(true, b.shape());
                }
                b.measure(buf)
            },
            Store::Columns(c) => {
                proof {
                    lemma_inner(false, c.shape());
                }
                c.measure(buf)
            },
        }
    }

    fn apply_permutation(&mut self, perm: &[usize], n: usize) {
        match self {
            Store::Bonds(b) => b.apply_permutation(perm, n),
            Store::Columns(c) => c.apply_permutation(perm, n),
        }
    }

    fn pack_forward(&self, i: usize, buf: &mut Vec<Scalar>) {
        match self {
            Store::Bonds(b) => {
                proof {
                    lemma_inner(true, b.shape());
                }
                b.pack_forward(i, buf)
            },
            Store::Columns(c) => {
                proof {
                    lemma_inner(false, c.shape());
                }
                c.pack_forward(i, buf)
            },
        }
    }

    fn unpack_forward(&mut self, i: usize, buf: &[Scalar]) -> (r: usize) {
        match self {
            Store::Bonds(b) => {
                proof {
                    lemma_inner(true, b.shape());
                }
                b.unpack_forward(i, buf)
            },
            Store::Columns(c) => {
                proof {
                    lemma_inner(false, c.shape());
                }
                c.unpack_forward(i, buf)
            },
        }
    }

    fn pack_reverse(&self, i: usize, buf: &mut Vec<Scalar>) {
        match self {
            Store::Bonds(b) => {
                proof {
                    lemma_inner(true, b.shape());
                }
                b.pack_reverse(i, buf)
            },
            Store::Columns(c) => {
                proof {
                    lemma_inner(false, c.shape());
                }
                c.pack_reverse(i, buf)
            },
        }
    }

    fn unpack_reverse<F: Fn(Op, Scalar, Scalar, Scalar) -> Scalar>(&mut self, i: usize, buf: &[Scalar], ar: &F) -> (r:
        usize) {
        match self {
            Store::Bonds(b) => {
                proof {
                    lemma_inner(true, b.shape());
                }
                b.unpack_reverse(i, buf, ar)
            },
            Store::Columns(c) => {
                proof {
                    lemma_inner(false, c.shape());
                }
                c.unpack_reverse(i, buf, ar)
            },
        }
    }

    fn zero(&mut self, n: usize) {
        match self {
            Store::Bonds(b) => {
                let ghost before: BondStore = *b;
                proof {
                    lemma_inner(true, b.shape());
                }
                b.zero(n);
                proof {
                    assert(before.rows().map_values(
                        |row: Seq<Scalar>| BondStore::zeroed(before.shape(), row),
                    ) =~= before.rows().map_values(
                        |row: Seq<Scalar>| Self::zeroed(seq![form(true)] + before.shape(), row),
                    ));
                }
            },
            Store::Columns(c) => {
                let ghost before: ColumnStore = *c;
                proof {
                    lemma_inner(false, c.shape());
                }
                c.zero(n);
                proof {
                    assert(before.rows().map_values(
                        |row: Seq<Scalar>| ColumnStore::zeroed(before.shape(), row),
                    ) =~= before.rows().map_values(
                        |row: Seq<Scalar>| Self::zeroed(seq![form(false)] + before.shape(), row),
                    ));
                }
            },
        }
    }

    fn forward_comm_size(&self) -> (r: usize) {
        match self {
            Store::Bonds(b) => {
                proof {
                    lemma_inner(true, b.shape());
                }
                b.forward_comm_size()
            },
            Store::Columns(c) => {
                proof {
                    lemma_inner(false, c.shape());
                }
                c.forward_comm_size()
            },
        }
    }

    fn reverse_comm_size(&self) -> (r: usize) {
        match self {
            Store::Bonds(b) => {
                proof {
                    lemma_inner(true, b.shape());
                }
                b.reverse_comm_size()
            },
            Store::Columns(c) => {
                proof {
                    lemma_inner(false, c.shape());
                }
                c.reverse_comm_size()
            },
        }
    }
}

} // verus!
