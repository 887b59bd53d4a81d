//! The rows of a regular symbol, full or truncated.

use crate::ecc::all_codewords;
use crate::generators::bitfield::{bits_of, Bitfield};
use crate::tables::{symbol_value, ClusterTable};
use vstd::arithmetic::power2::lemma2_to64;
use vstd::prelude::*;

verus! {

/// The value of the 17 modules that start every row.
pub const START_PATTERN_BITS: u32 = 0b11111111010101000;

/// The value of the 18 modules that end every row of a full symbol.
pub const END_PATTERN_BITS: u32 = 0b111111101000101001;

/// The modules that start every row.
pub open spec fn start_modules() -> Seq<bool> {
    bits_of(START_PATTERN_BITS, 17)
}

/// The modules that end every row of a full symbol.
pub open spec fn end_modules() -> Seq<bool> {
    bits_of(END_PATTERN_BITS, 18)
}

/// The single bar that ends every row of a truncated symbol.
pub open spec fn stop_modules() -> Seq<bool> {
    bits_of(1, 1)
}

/// The 17 modules of `codeword` in the cluster `cluster`.
pub open spec fn codeword_modules(table: Seq<u16>, cluster: int, codeword: int) -> Seq<bool> {
    bits_of(symbol_value(table, cluster, codeword), 17)
}

/// The modules of each of `codewords` in the cluster `cluster`.
pub open spec fn data_fields(table: Seq<u16>, cluster: int, codewords: Seq<u16>) -> Seq<
    Seq<bool>,
> {
    Seq::new(codewords.len(), |i: int| codeword_modules(table, cluster, codewords[i] as int))
}

/// The three numbers that the row indicators of a symbol take turns to
/// show: one of the rows, `(rows - 1) / 3`, one of the columns,
/// `cols - 1`, and one of the correction level,
/// `level * 3 + (rows - 1) % 3`.
pub open spec fn indicator_values(rows: int, cols: int, level: int) -> (int, int, int) {
    ((rows - 1) / 3, cols - 1, level * 3 + (rows - 1) % 3)
}

/// The left and the right row indicator of the row `row`. Both carry the
/// number of the group of three rows, `(row / 3) * 30`. A row of cluster
/// 0 shows the rows on the left and the columns on the right, one of
/// cluster 1 the level and the rows, one of cluster 2 the columns and the
/// level.
pub open spec fn row_markers(values: (int, int, int), row: int) -> (int, int) {
    let group = (row / 3) * 30;
    if row % 3 == 0 {
        (values.0 + group, values.1 + group)
    } else if row % 3 == 1 {
        (values.2 + group, values.0 + group)
    } else {
        (values.1 + group, values.2 + group)
    }
}

/// The fields of a row of a regular symbol: the start pattern, the left
/// row indicator and the data codewords; behind them the right row
/// indicator and the end pattern, in place of which a truncated row has a
/// single bar.
pub open spec fn row_fields(
    table: Seq<u16>,
    codewords: Seq<u16>,
    cluster: int,
    markers: (int, int),
    truncated: bool,
) -> Seq<Seq<bool>> {
    seq![start_modules(), codeword_modules(table, cluster, markers.0)] + data_fields(
        table,
        cluster,
        codewords,
    ) + row_tail(table, cluster, markers.1, truncated)
}

/// The fields that end a row of a regular symbol.
pub open spec fn row_tail(table: Seq<u16>, cluster: int, right: int, truncated: bool) -> Seq<
    Seq<bool>,
> {
    if truncated {
        seq![stop_modules()]
    } else {
        seq![codeword_modules(table, cluster, right), end_modules()]
    }
}

/// The pattern that starts every row.
pub fn start_pattern() -> (r: Bitfield)
    ensures
        r@ == start_modules(),
{
    proof {
        lemma2_to64();
    }
    Bitfield::new(START_PATTERN_BITS, 17)
}

/// The pattern that ends every row of a full symbol.
pub fn end_pattern() -> (r: Bitfield)
    ensures
        r@ == end_modules(),
{
    proof {
        lemma2_to64();
    }
    Bitfield::new(END_PATTERN_BITS, 18)
}

/// What a row emits next.
#[derive(Clone, Copy, Debug, PartialEq, Eq, Structural)]
pub enum RowPattern {
    Start,
    Left,
    Data,
    Right,
    End,
    Done,
}

/// A row of a regular symbol, which emits its fields one after the other.
#[derive(Clone, Copy, Debug)]
pub struct PDF417Row<'a> {
    codewords: &'a [u16],
    clusters: &'a ClusterTable,
    position: usize,
    next_pat: RowPattern,
    table: u8,
    /// The left and the right row indicator.
    markers: (u16, u16),
    truncated: bool,
}

impl<'a> PDF417Row<'a> {
    #[verifier::type_invariant]
    spec fn consistent(self) -> bool {
        &&& self.table < 3
        &&& self.markers.0 < 929
        &&& self.markers.1 < 929
        &&& 1 <= self.codewords@.len() <= 30
        &&& all_codewords(self.codewords@)
        &&& self.position <= self.codewords@.len()
        &&& match self.next_pat {
            RowPattern::Start => self.position == 0,
            RowPattern::Left => self.position == 0,
            RowPattern::Data => self.position < self.codewords@.len(),
            RowPattern::Right => self.position == self.codewords@.len() && !self.truncated,
            RowPattern::End => self.position == self.codewords@.len(),
            RowPattern::Done => self.position == self.codewords@.len(),
        }
    }

    /// The fields that the row has not emitted yet.
    pub closed spec fn remaining(self) -> Seq<Seq<bool>> {
        let table = self.clusters@;
        let cluster = self.table as int;
        let data = data_fields(
            table,
            cluster,
            self.codewords@.subrange(self.position as int, self.codewords@.len() as int),
        );
        let tail = row_tail(table, cluster, self.markers.1 as int, self.truncated);
        match self.next_pat {
            RowPattern::Start => seq![
                start_modules(),
                codeword_modules(table, cluster, self.markers.0 as int),
            ] + data + tail,
            RowPattern::Left => seq![codeword_modules(table, cluster, self.markers.0 as int)]
                + data + tail,
            RowPattern::Data => data + tail,
            RowPattern::Right => tail,
            RowPattern::End => if self.truncated {
                seq![stop_modules()]
            } else {
                seq![end_modules()]
            },
            RowPattern::Done => Seq::empty(),
        }
    }

    /// Calculates the three numbers that the row indicators of a symbol
    /// take turns to show.
    pub fn prepare(dimensions: (u8, u8), level: u8) -> (r: (u8, u8, u8))
        requires
            1 <= dimensions.0,
            1 <= dimensions.1,
            level <= 8,
        ensures
            (r.0 as int, r.1 as int, r.2 as int) == indicator_values(
                dimensions.0 as int,
                dimensions.1 as int,
                level as int,
            ),
            r.0 <= 84,
            r.1 <= 254,
            r.2 <= 26,
    {
        let (rows, cols) = dimensions;
        let rows_val = (rows - 1) / 3;
        let cols_val = cols - 1;
        let level_val = level * 3 + (rows - 1) % 3;
        (rows_val, cols_val, level_val)
    }

    /// The row of the number `row` over its data codewords, of which a
    /// row has between 1 and 30.
    pub fn new(
        codewords: &'a [u16],
        row: u8,
        infos: (u8, u8, u8),
        truncated: bool,
        clusters: &'a ClusterTable,
    ) -> (r: Self)
        requires
            1 <= codewords@.len() <= 30,
            all_codewords(codewords@),
            row < 90,
            infos.0 <= 58,
            infos.1 <= 58,
            infos.2 <= 58,
        ensures
            r.remaining() == row_fields(
                clusters@,
                codewords@,
                row as int % 3,
                row_markers((infos.0 as int, infos.1 as int, infos.2 as int), row as int),
                truncated,
            ),
    {
        let (rows_val, cols_val, level_val) = infos;
        let table = row % 3;
        let row_id = (row / 3) as u16 * 30;
        let (left, right) = if table == 0 {
            (rows_val, cols_val)
        } else if table == 1 {
            (level_val, rows_val)
        } else {
            (cols_val, level_val)
        };
        proof {
            assert(codewords@.subrange(0, codewords@.len() as int) =~= codewords@);
        }
        PDF417Row {
            codewords,
            clusters,
            position: 0,
            next_pat: RowPattern::Start,
            table,
            markers: (left as u16 + row_id, right as u16 + row_id),
            truncated,
        }
    }

    /// The number of fields that the row has not emitted yet, as the
    /// bounds that an iterator reports.
    pub fn size_hint(&self) -> (r: (usize, Option<usize>))
        ensures
            r.0 == self.remaining().len(),
            r.1 == Some(r.0),
    {
        proof {
            use_type_invariant(self);
        }
        let data = self.codewords.len() - self.position;
        let tail: usize = if self.truncated {
            1
        } else {
            2
        };
        let count = match self.next_pat {
            RowPattern::Start => 2 + data + tail,
            RowPattern::Left => 1 + data + tail,
            RowPattern::Data => data + tail,
            RowPattern::Right => 2,
            RowPattern::End => 1,
            RowPattern::Done => 0,
        };
        (count, Some(count))
    }

    /// Emits the next field of the row, where one is left.
    pub fn next(&mut self) -> (r: Option<Bitfield>)
        ensures
            match r {
                Some(field) => {
                    &&& old(self).remaining().len() > 0
                    &&& field@ == old(self).remaining()[0]
                    &&& final(self).remaining() == old(self).remaining().skip(1)
                },
                None => old(self).remaining().len() == 0 && final(self).remaining().len() == 0,
            },
    {
        proof {
            use_type_invariant(&*self);
            lemma2_to64();
        }
        let ghost before = self.remaining();
        let ghost rest = self.codewords@.subrange(
            self.position as int,
            self.codewords@.len() as int,
        );
        match self.next_pat {
            RowPattern::Start => {
                self.next_pat = RowPattern::Left;
                proof {
                    assert(self.remaining() =~= before.skip(1));
                }
                Some(start_pattern())
            },
            RowPattern::Left => {
                let value = self.clusters.lookup(self.table, self.markers.0);
                self.next_pat = RowPattern::Data;
                proof {
                    assert(self.remaining() =~= before.skip(1));
                }
                Some(Bitfield::new(value, 17))
            },
            RowPattern::Data => {
                let cw = self.codewords[self.position];
                let value = self.clusters.lookup(self.table, cw);
                let position = self.position + 1;
                let next_pat = if position < self.codewords.len() {
                    RowPattern::Data
                } else if self.truncated {
                    RowPattern::End
                } else {
                    RowPattern::Right
                };
                *self = PDF417Row {
                    codewords: self.codewords,
                    clusters: self.clusters,
                    position,
                    next_pat,
                    table: self.table,
                    markers: self.markers,
                    truncated: self.truncated,
                };
                proof {
                    let after = self.codewords@.subrange(
                        self.position as int,
                        self.codewords@.len() as int,
                    );
                    assert(rest[0] == cw);
                    assert(after =~= rest.skip(1));
                    assert(data_fields(self.clusters@, self.table as int, after)
                        =~= data_fields(self.clusters@, self.table as int, rest).skip(1));
                    assert(self.remaining() =~= before.skip(1));
                }
                Some(Bitfield::new(value, 17))
            },
            RowPattern::Right => {
                let value = self.clusters.lookup(self.table, self.markers.1);
                self.next_pat = RowPattern::End;
                proof {
                    assert(self.remaining() =~= before.skip(1));
                }
                Some(Bitfield::new(value, 17))
            },
            RowPattern::End => {
                self.next_pat = RowPattern::Done;
                proof {
                    assert(self.remaining() =~= before.skip(1));
                }
                if self.truncated {
                    Some(Bitfield::new(1, 1))
                } else {
                    Some(end_pattern())
                }
            },
            RowPattern::Done => None,
        }
    }
}

} // verus!
