//! Nullable typed columns.

use vstd::prelude::*;
use crate::rearrange::exchange;

verus! {

/// A dense column of nullable values, one position per row.
#[derive(Debug, Clone, PartialEq)]
pub struct Packer<T> {
    values: Vec<Option<T>>,
}

impl<T> View for Packer<T> {
    type V = Seq<Option<T>>;

    closed spec fn view(&self) -> Seq<Option<T>> {
        self.values@
    }
}

impl<T> Packer<T> {
    /// An empty column.
    pub fn new() -> (packer: Self)
        ensures
            packer@ == Seq::<Option<T>>::empty(),
    {
        Packer { values: Vec::new() }
    }

    /// A column of the given values, none of them null.
    pub fn from(values: Vec<T>) -> (packer: Self)
        ensures
            packer@ == values@.map_values(|value: T| Some(value)),
    {
        let mut wrapped: Vec<Option<T>> = Vec::new();
        for value in iter: values
            invariant
                wrapped@ == iter.seq().take(iter.index() as int).map_values(|value: T| Some(value)),
        {
            wrapped.push(Some(value));
        }
        Packer { values: wrapped }
    }

    /// Number of rows held, nulls included.
    pub fn num_rows(&self) -> (n: usize)
        ensures
            n == self@.len(),
    {
        self.values.len()
    }

    /// Appends a present value as a new last row.
    pub fn push(&mut self, value: T)
        ensures
            final(self)@ == old(self)@.push(Some(value)),
    {
        self.values.push(Some(value));
    }

    /// Appends a value or a null as a new last row.
    pub fn push_option(&mut self, value: Option<T>)
        ensures
            final(self)@ == old(self)@.push(value),
    {
        self.values.push(value);
    }

    /// The value at `index`: `None` for a null and for a position past the end.
    pub fn get(&self, index: usize) -> (value: Option<&T>)
        ensures
            value == (if index < self@.len() {
                match self@[index as int] {
                    Some(held) => Some(&held),
                    None => None,
                }
            } else {
                None
            }),
    {
        if index < self.values.len() {
            self.values[index].as_ref()
        } else {
            None
        }
    }

    /// All rows in order.
    pub fn values(&self) -> (values: &[Option<T>])
        ensures
            values@ == self@,
    {
        self.values.as_slice()
    }

    /// Exchanges the rows at `a` and `b`, null status included.
    pub fn swap(&mut self, a: usize, b: usize)
        requires
            a < old(self)@.len(),
            b < old(self)@.len(),
        ensures
            final(self)@ == exchange(old(self)@, a as int, b as int),
    {
        let first = self.values[a].take();
        let second = self.values[b].take();
        self.values[a] = second;
        self.values[b] = first;
    }
}

/// The element kind of a column. Integers and strings are ordered; floats
/// and booleans are carried along and never decide an order.
#[derive(Debug, Clone, Copy, PartialEq, Eq, Structural)]
pub enum Kind {
    Float,
    Integer,
    String,
    Boolean,
}

/// What one position of a column holds: the column's kind together with the
/// value there, `None` standing for a null.
pub enum Cell {
    Float(Option<u64>),
    Integer(Option<i64>),
    String(Option<Seq<u8>>),
    Boolean(Option<bool>),
}

impl Cell {
    /// The kind of the column that the cell belongs to.
    pub open spec fn kind(self) -> Kind {
        match self {
            Cell::Float(_) => Kind::Float,
            Cell::Integer(_) => Kind::Integer,
            Cell::String(_) => Kind::String,
            Cell::Boolean(_) => Kind::Boolean,
        }
    }

    /// Whether the cell holds no value.
    pub open spec fn is_null(self) -> bool {
        match self {
            Cell::Float(value) => value is None,
            Cell::Integer(value) => value is None,
            Cell::String(value) => value is None,
            Cell::Boolean(value) => value is None,
        }
    }
}

/// A column of one of the supported element kinds.
#[derive(Debug, Clone, PartialEq)]
pub enum Packers {
    /// 64-bit floats, each held as its IEEE 754 bit pattern.
    Float(Packer<u64>),
    /// 64-bit signed integers.
    Integer(Packer<i64>),
    /// Byte strings holding UTF-8 text.
    String(Packer<Vec<u8>>),
    /// Booleans.
    Boolean(Packer<bool>),
}

impl View for Packers {
    type V = Seq<Cell>;

    /// The cells of the column, top to bottom.
    open spec fn view(&self) -> Seq<Cell> {
        Seq::new(self.spec_num_rows(), |i: int| self.cell(i))
    }
}

impl Packers {
    /// The kind of the column's elements.
    pub open spec fn kind(&self) -> Kind {
        match self {
            Packers::Float(_) => Kind::Float,
            Packers::Integer(_) => Kind::Integer,
            Packers::String(_) => Kind::String,
            Packers::Boolean(_) => Kind::Boolean,
        }
    }

    /// Number of rows held, nulls included.
    pub open spec fn spec_num_rows(&self) -> nat {
        match self {
            Packers::Float(p) => p@.len(),
            Packers::Integer(p) => p@.len(),
            Packers::String(p) => p@.len(),
            Packers::Boolean(p) => p@.len(),
        }
    }

    /// The cell at row `i`.
    pub open spec fn cell(&self, i: int) -> Cell {
        match self {
            Packers::Float(p) => Cell::Float(p@[i]),
            Packers::Integer(p) => Cell::Integer(p@[i]),
            Packers::String(p) => Cell::String(
                match p@[i] {
                    Some(bytes) => Some(bytes@),
                    None => None,
                },
            ),
            Packers::Boolean(p) => Cell::Boolean(p@[i]),
        }
    }

    /// Number of rows held, nulls included.
    pub fn num_rows(&self) -> (n: usize)
        ensures
            n == self@.len(),
    {
        match self {
            Packers::Float(p) => p.num_rows(),
            Packers::Integer(p) => p.num_rows(),
            Packers::String(p) => p.num_rows(),
            Packers::Boolean(p) => p.num_rows(),
        }
    }

    /// Exchanges the rows at `a` and `b`, null status included.
    pub fn swap(&mut self, a: usize, b: usize)
        requires
            a < old(self)@.len(),
            b < old(self)@.len(),
        ensures
            final(self).kind() == old(self).kind(),
            final(self)@ == exchange(old(self)@, a as int, b as int),
    {
        match self {
            Packers::Float(p) => p.swap(a, b),
            Packers::Integer(p) => p.swap(a, b),
            Packers::String(p) => p.swap(a, b),
            Packers::Boolean(p) => p.swap(a, b),
        }
    }
}

} // verus!
