//! The rows of a MicroPDF417 symbol.

use crate::generators::bitfield::{bits_of, Bitfield};
use crate::ecc::all_codewords;
use crate::generators::pdf417::data_fields;
use crate::tables::{micro_starts, ClusterTable, MicroTables};
use vstd::arithmetic::power2::lemma2_to64;
use vstd::prelude::*;

verus! {

/// The number of data columns that stand before the centre pattern: two
/// in a row of more than two columns, which alone has a centre pattern.
pub open spec fn left_columns(cols: int) -> int {
    if cols > 2 {
        2
    } else {
        0
    }
}

/// The indices of the row address patterns that the row `row` shows on
/// the left, in the centre and on the right, and its cluster. The first
/// three go round modulo 51 and the cluster modulo 3, a step with every
/// row, from where the variant starts.
pub open spec fn micro_indices(starts: (u8, u8, u8, u8), row: int) -> (int, int, int, int) {
    ((starts.0 + row) % 51, (starts.1 + row) % 51, (starts.2 + row) % 51, (starts.3 + row) % 3)
}

/// The ten modules of a row address pattern.
pub open spec fn rap_modules(patterns: Seq<u16>, index: int) -> Seq<bool> {
    bits_of(patterns[index] as u32, 10)
}

/// The eleven modules that end a row: a row address pattern of the sides
/// and the stop bar.
pub open spec fn end_rap_modules(patterns: Seq<u16>, index: int) -> Seq<bool> {
    bits_of((patterns[index] * 2 + 1) as u32, 11)
}

/// The centre pattern as a field, where the row has one.
pub open spec fn center_fields(center: Seq<u16>, index: int, cols: int) -> Seq<Seq<bool>> {
    if cols > 2 {
        seq![rap_modules(center, index)]
    } else {
        Seq::empty()
    }
}

/// The fields of a row of a MicroPDF417 symbol: the row address pattern of
/// the left, the data codewords, with the centre pattern behind the
/// second of more than two, and the row address pattern of the right with
/// the stop bar.
pub open spec fn micro_row_fields(
    table: Seq<u16>,
    side: Seq<u16>,
    center: Seq<u16>,
    codewords: Seq<u16>,
    indices: (int, int, int, int),
) -> Seq<Seq<bool>> {
    let split = left_columns(codewords.len() as int);
    seq![rap_modules(side, indices.0)] + data_fields(table, indices.3, codewords.subrange(0, split))
        + center_fields(center, indices.1, codewords.len() as int) + data_fields(
        table,
        indices.3,
        codewords.subrange(split, codewords.len() as int),
    ) + seq![end_rap_modules(side, indices.2)]
}

/// What a row of a MicroPDF417 symbol emits next.
#[derive(Clone, Copy, Debug, PartialEq, Eq, Structural)]
pub enum MicroPattern {
    Start,
    LeftData,
    Center,
    RightData,
    End,
    Done,
}

/// A row of a MicroPDF417 symbol, which emits its fields one after the
/// other.
#[derive(Clone, Copy, Debug)]
pub struct MicroPDF417Row<'a> {
    codewords: &'a [u16],
    clusters: &'a ClusterTable,
    tables: &'a MicroTables,
    position: usize,
    next_pat: MicroPattern,
    start_ind: u8,
    center_ind: u8,
    end_ind: u8,
    table: u8,
}

impl<'a> MicroPDF417Row<'a> {
    #[verifier::type_invariant]
    spec fn consistent(self) -> bool {
        let len = self.codewords@.len() as int;
        &&& self.table < 3
        &&& self.start_ind < 51
        &&& self.center_ind < 51
        &&& self.end_ind < 51
        &&& all_codewords(self.codewords@)
        &&& len <= 4
        &&& self.position <= len
        &&& match self.next_pat {
            MicroPattern::Start => self.position == 0,
            MicroPattern::LeftData => len > 2 && self.position < 2,
            MicroPattern::Center => len > 2 && self.position == 2,
            MicroPattern::RightData => left_columns(len) <= self.position < len,
            MicroPattern::End => self.position == len,
            MicroPattern::Done => self.position == len,
        }
    }

    /// The fields that the row has not emitted yet.
    pub closed spec fn remaining(self) -> Seq<Seq<bool>> {
        let len = self.codewords@.len() as int;
        let split = left_columns(len);
        let pos = self.position as int;
        let cluster = self.table as int;
        let start = seq![rap_modules(self.tables.side(), self.start_ind as int)];
        let middle = center_fields(self.tables.center(), self.center_ind as int, len);
        let end = seq![end_rap_modules(self.tables.side(), self.end_ind as int)];
        match self.next_pat {
            MicroPattern::Start => start + data_fields(
                self.clusters@,
                cluster,
                self.codewords@.subrange(0, split),
            ) + middle + data_fields(self.clusters@, cluster, self.codewords@.subrange(split, len))
                + end,
            MicroPattern::LeftData => data_fields(
                self.clusters@,
                cluster,
                self.codewords@.subrange(pos, split),
            ) + middle + data_fields(self.clusters@, cluster, self.codewords@.subrange(split, len))
                + end,
            MicroPattern::Center => middle + data_fields(
                self.clusters@,
                cluster,
                self.codewords@.subrange(split, len),
            ) + end,
            MicroPattern::RightData => data_fields(
                self.clusters@,
                cluster,
                self.codewords@.subrange(pos, len),
            ) + end,
            MicroPattern::End => end,
            MicroPattern::Done => Seq::empty(),
        }
    }

    /// Looks up where the rows of a variant start among the row address
    /// patterns and the clusters.
    pub fn prepare(dimensions: (u8, u8), variant: u8, tables: &MicroTables) -> (r: (
        u8,
        u8,
        u8,
        u8,
    ))
        requires
            variant < 34,
        ensures
            r == micro_starts(tables.rap(), variant as int),
            r.0 < 52,
            r.1 < 52,
            r.2 < 52,
            r.3 < 3,
    {
        tables.starts(variant)
    }

    /// The row of the number `row` over its data codewords, of which a
    /// row has up to 4.
    pub fn init(
        codewords: &'a [u16],
        row: u8,
        infos: (u8, u8, u8, u8),
        clusters: &'a ClusterTable,
        tables: &'a MicroTables,
    ) -> (r: Self)
        requires
            codewords@.len() <= 4,
            all_codewords(codewords@),
            row < 200,
            infos.0 < 52,
            infos.1 < 52,
            infos.2 < 52,
            infos.3 < 3,
        ensures
            r.remaining() == micro_row_fields(
                clusters@,
                tables.side(),
                tables.center(),
                codewords@,
                micro_indices(infos, row as int),
            ),
    {
        MicroPDF417Row {
            codewords,
            clusters,
            tables,
            position: 0,
            next_pat: MicroPattern::Start,
            start_ind: (infos.0 + row) % 51,
            center_ind: (infos.1 + row) % 51,
            end_ind: (infos.2 + row) % 51,
            table: (infos.3 + row) % 3,
        }
    }

    /// The number of fields that the row has not emitted yet, as the
    /// bounds that an iterator reports.
    pub fn size_hint(&self) -> (r: (usize, Option<usize>))
        ensures
            r.0 == self.remaining().len(),
            r.1 == Some(r.0),
    {
        proof {
            use_type_invariant(self);
        }
        let len = self.codewords.len();
        let data = len - self.position;
        let middle: usize = if len > 2 {
            1
        } else {
            0
        };
        let count = match self.next_pat {
            MicroPattern::Start => 1 + data + middle + 1,
            MicroPattern::LeftData => data + middle + 1,
            MicroPattern::Center => middle + data + 1,
            MicroPattern::RightData => data + 1,
            MicroPattern::End => 1,
            MicroPattern::Done => 0,
        };
        (count, Some(count))
    }

    /// Emits the next field of the row, where one is left.
    pub fn next(&mut self) -> (r: Option<Bitfield>)
        ensures
            match r {
                Some(field) => {
                    &&& old(self).remaining().len() > 0
                    &&& field@ == old(self).remaining()[0]
                    &&& final(self).remaining() == old(self).remaining().skip(1)
                },
                None => old(self).remaining().len() == 0 && final(self).remaining().len() == 0,
            },
    {
        proof {
            use_type_invariant(&*self);
            lemma2_to64();
        }
        let ghost before = self.remaining();
        let len = self.codewords.len();
        let ghost split = left_columns(len as int);
        let ghost cluster = self.table as int;
        match self.next_pat {
            MicroPattern::Start => {
                let pattern = self.tables.side_pattern(self.start_ind);
                let next_pat = if len > 2 {
                    MicroPattern::LeftData
                } else if len > 0 {
                    MicroPattern::RightData
                } else {
                    MicroPattern::End
                };
                *self = self.moved(0, next_pat);
                proof {
                    assert(data_fields(self.clusters@, cluster, self.codewords@.subrange(0, 0))
                        =~= Seq::<Seq<bool>>::empty());
                    assert(data_fields(
                        self.clusters@,
                        cluster,
                        self.codewords@.subrange(len as int, len as int),
                    ) =~= Seq::<Seq<bool>>::empty());
                    assert(self.remaining() =~= before.skip(1));
                }
                Some(Bitfield::new(pattern as u32, 10))
            },
            MicroPattern::LeftData => {
                let cw = self.codewords[self.position];
                let value = self.clusters.lookup(self.table, cw);
                let ghost rest = self.codewords@.subrange(self.position as int, split);
                let position = self.position + 1;
                let next_pat = if position < 2 {
                    MicroPattern::LeftData
                } else {
                    MicroPattern::Center
                };
                *self = self.moved(position, next_pat);
                proof {
                    let after = self.codewords@.subrange(position as int, split);
                    assert(rest[0] == cw);
                    assert(after =~= rest.skip(1));
                    assert(data_fields(self.clusters@, cluster, after) =~= data_fields(
                        self.clusters@,
                        cluster,
                        rest,
                    ).skip(1));
                    assert(self.remaining() =~= before.skip(1));
                }
                Some(Bitfield::new(value, 17))
            },
            MicroPattern::Center => {
                let pattern = self.tables.center_pattern(self.center_ind);
                *self = self.moved(self.position, MicroPattern::RightData);
                proof {
                    assert(self.remaining() =~= before.skip(1));
                }
                Some(Bitfield::new(pattern as u32, 10))
            },
            MicroPattern::RightData => {
                let cw = self.codewords[self.position];
                let value = self.clusters.lookup(self.table, cw);
                let ghost rest = self.codewords@.subrange(self.position as int, len as int);
                let position = self.position + 1;
                let next_pat = if position < len {
                    MicroPattern::RightData
                } else {
                    MicroPattern::End
                };
                *self = self.moved(position, next_pat);
                proof {
                    let after = self.codewords@.subrange(position as int, len as int);
                    assert(rest[0] == cw);
                    assert(after =~= rest.skip(1));
                    assert(data_fields(self.clusters@, cluster, after) =~= data_fields(
                        self.clusters@,
                        cluster,
                        rest,
                    ).skip(1));
                    assert(self.remaining() =~= before.skip(1));
                }
                Some(Bitfield::new(value, 17))
            },
            MicroPattern::End => {
                let pattern = self.tables.side_pattern(self.end_ind);
                *self = self.moved(self.position, MicroPattern::Done);
                proof {
                    assert(self.remaining() =~= before.skip(1));
                }
                Some(Bitfield::new(pattern as u32 * 2 + 1, 11))
            },
            MicroPattern::Done => None,
        }
    }

    /// The row at another place of its course.
    fn moved(&self, position: usize, next_pat: MicroPattern) -> (r: Self)
        requires
            position <= self.codewords@.len(),
            match next_pat {
                MicroPattern::Start => position == 0,
                MicroPattern::LeftData => self.codewords@.len() > 2 && position < 2,
                MicroPattern::Center => self.codewords@.len() > 2 && position == 2,
                MicroPattern::RightData => left_columns(self.codewords@.len() as int) <= position
                    < self.codewords@.len(),
                MicroPattern::End => position == self.codewords@.len(),
                MicroPattern::Done => position == self.codewords@.len(),
            },
        ensures
            r.codewords == self.codewords,
            r.clusters == self.clusters,
            r.tables == self.tables,
            r.position == position,
            r.next_pat == next_pat,
            r.start_ind == self.start_ind,
            r.center_ind == self.center_ind,
            r.end_ind == self.end_ind,
            r.table == self.table,
    {
        proof {
            use_type_invariant(self);
        }
        MicroPDF417Row {
            codewords: self.codewords,
            clusters: self.clusters,
            tables: self.tables,
            position,
            next_pat,
            start_ind: self.start_ind,
            center_ind: self.center_ind,
            end_ind: self.end_ind,
            table: self.table,
        }
    }
}

} // verus!
