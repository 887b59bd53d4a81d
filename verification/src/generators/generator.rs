//! The rows of a symbol, one after the other.

use crate::builder::{Symbol, PDF417};
use crate::generators::row::Row;
use vstd::prelude::*;

verus! {

/// Hands out the rows of a symbol, the first row first.
#[derive(Clone, Copy, Debug)]
pub struct PDF417RowIterator<'a> {
    symbol: PDF417<'a>,
    row: u8,
}

impl<'a> PDF417RowIterator<'a> {
    /// The symbol whose rows are handed out.
    pub closed spec fn symbol(self) -> Symbol {
        self.symbol@
    }

    /// The number of the row that is handed out next.
    pub closed spec fn index(self) -> int {
        self.row as int
    }

    /// The rows of `symbol`, from the first on.
    pub fn new(symbol: PDF417<'a>) -> (r: Self)
        ensures
            r.symbol() == symbol@,
            r.index() == 0,
    {
        PDF417RowIterator { symbol, row: 0 }
    }

    /// The number of rows that are left, as the bounds that an iterator
    /// reports.
    pub fn size_hint(&self) -> (r: (usize, Option<usize>))
        ensures
            r.0 == (if self.index() < self.symbol().rows {
                self.symbol().rows - self.index()
            } else {
                0
            }),
            r.1 == Some(r.0),
    {
        let rows = self.symbol.rows();
        let count: usize = if self.row < rows {
            (rows - self.row) as usize
        } else {
            0
        };
        (count, Some(count))
    }

    /// Hands out the next row, where one is left, about to emit its first
    /// field.
    pub fn next(&mut self) -> (r: Option<Row<'a>>)
        ensures
            final(self).symbol() == old(self).symbol(),
            match r {
                Some(row) => {
                    &&& old(self).index() < old(self).symbol().rows
                    &&& final(self).index() == old(self).index() + 1
                    &&& row.remaining() == old(self).symbol().row_fields(old(self).index())
                },
                None => {
                    &&& old(self).index() >= old(self).symbol().rows
                    &&& final(self).index() == old(self).index()
                },
            },
    {
        if self.row >= self.symbol.rows() {
            return None;
        }
        let row = self.symbol.row(self.row);
        self.row = self.row + 1;
        Some(row)
    }
}

} // verus!
