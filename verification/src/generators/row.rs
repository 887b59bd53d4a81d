//! A row of any symbol, and the modules that its fields make up.

use crate::generators::bitfield::Bitfield;
use crate::generators::micro_pdf417::MicroPDF417Row;
use crate::generators::pdf417::PDF417Row;
use vstd::prelude::*;

verus! {

/// The modules of the fields of a row, one field after the other.
pub open spec fn fields_modules(fields: Seq<Seq<bool>>) -> Seq<bool>
    decreases fields.len(),
{
    if fields.len() == 0 {
        Seq::empty()
    } else {
        fields[0] + fields_modules(fields.skip(1))
    }
}

/// The modules of two runs of fields are those of the first and then those
/// of the second.
pub proof fn lemma_fields_modules_concat(a: Seq<Seq<bool>>, b: Seq<Seq<bool>>)
    ensures
        fields_modules(a + b) == fields_modules(a) + fields_modules(b),
    decreases a.len(),
{
    if a.len() == 0 {
        assert(a + b =~= b);
        assert(fields_modules(a) + fields_modules(b) =~= fields_modules(b));
    } else {
        lemma_fields_modules_concat(a.skip(1), b);
        assert((a + b).skip(1) =~= a.skip(1) + b);
        assert((a + b)[0] == a[0]);
        assert(fields_modules(a + b) =~= fields_modules(a) + fields_modules(b));
    }
}

/// Fields of one width make up as many modules as there are fields, times
/// that width.
pub proof fn lemma_fields_modules_len(fields: Seq<Seq<bool>>, width: nat)
    requires
        forall|i: int| 0 <= i < fields.len() ==> (#[trigger] fields[i]).len() == width,
    ensures
        fields_modules(fields).len() == fields.len() * width,
    decreases fields.len(),
{
    if fields.len() > 0 {
        lemma_fields_modules_len(fields.skip(1), width);
        assert(fields.len() * width == (fields.len() - 1) * width + width) by (nonlinear_arith);
    } else {
        assert(fields.len() * width == 0) by (nonlinear_arith)
            requires
                fields.len() == 0,
        ;
    }
}

/// A row of a symbol, which emits its fields one after the other.
#[derive(Clone, Copy, Debug)]
pub enum Row<'a> {
    /// A row of a regular symbol, full or truncated.
    Regular(PDF417Row<'a>),
    /// A row of a MicroPDF417 symbol.
    Micro(MicroPDF417Row<'a>),
}

impl<'a> Row<'a> {
    /// The fields that the row has not emitted yet.
    pub open spec fn remaining(self) -> Seq<Seq<bool>> {
        match self {
            Row::Regular(row) => row.remaining(),
            Row::Micro(row) => row.remaining(),
        }
    }

    /// The number of fields that the row has not emitted yet, as the
    /// bounds that an iterator reports.
    pub fn size_hint(&self) -> (r: (usize, Option<usize>))
        ensures
            r.0 == self.remaining().len(),
            r.1 == Some(r.0),
    {
        match self {
            Row::Regular(row) => row.size_hint(),
            Row::Micro(row) => row.size_hint(),
        }
    }

    /// Emits the next field of the row, where one is left.
    pub fn next(&mut self) -> (r: Option<Bitfield>)
        ensures
            match r {
                Some(field) => {
                    &&& old(self).remaining().len() > 0
                    &&& field@ == old(self).remaining()[0]
                    &&& final(self).remaining() == old(self).remaining().skip(1)
                },
                None => old(self).remaining().len() == 0 && final(self).remaining().len() == 0,
            },
    {
        match self {
            Row::Regular(row) => row.next(),
            Row::Micro(row) => row.next(),
        }
    }
}

} // verus!
