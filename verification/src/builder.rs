//! The symbol over its sealed codewords, and its rendering into modules.

use crate::generators::bitfield::Bitfield;
use crate::generators::micro_pdf417::{micro_indices, micro_row_fields, MicroPDF417Row};
use crate::ecc::all_codewords;
use crate::generators::pdf417::{indicator_values, row_fields, row_markers, PDF417Row};
use crate::generators::generator::PDF417RowIterator;
use crate::generators::row::{fields_modules, Row};
use crate::tables::{
    lemma_variant_bounds, micro_starts, variant_cols, variant_rows, ClusterTable, MicroTables,
    Variant,
};
use vstd::prelude::*;
use vstd::slice::slice_subrange;

verus! {

/// Minimum number of rows of a regular symbol.
pub const MIN_ROWS: u8 = 3;

/// Maximum number of rows of a regular symbol.
pub const MAX_ROWS: u8 = 90;

/// Minimum number of data columns of a regular symbol.
pub const MIN_COLS: u8 = 1;

/// Maximum number of data columns of a regular symbol.
pub const MAX_COLS: u8 = 30;

/// The form of a symbol.
#[derive(Clone, Copy, Debug, PartialEq, Eq, Structural)]
pub enum Kind {
    /// A regular symbol with both row indicators and the end pattern.
    Full,
    /// A regular symbol whose rows end with a single bar behind the data.
    Truncated,
    /// A MicroPDF417 symbol.
    Micro,
}

/// The form of a symbol, with the tables that only MicroPDF417 needs.
#[derive(Clone, Copy, Debug)]
pub enum Layout<'a> {
    Full,
    Truncated,
    Micro(&'a MicroTables),
}

/// What a symbol is made of: its codewords in rows of `cols`, its form,
/// its correction level or, for a MicroPDF417 symbol, the number of its
/// variant, and the tables of patterns that it is drawn with.
pub struct Symbol {
    pub codewords: Seq<u16>,
    pub rows: int,
    pub cols: int,
    pub level: int,
    pub kind: Kind,
    pub clusters: Seq<u16>,
    pub rap: Seq<u8>,
    pub side: Seq<u16>,
    pub center: Seq<u16>,
}

impl Symbol {
    /// Tells whether the symbol is one that can be drawn: its dimensions
    /// and its level are those of its form, its codewords fill its rows,
    /// and each is a codeword.
    pub open spec fn valid(self) -> bool {
        &&& self.codewords.len() == self.rows * self.cols
        &&& all_codewords(self.codewords)
        &&& if self.kind == Kind::Micro {
            &&& 0 <= self.level < 34
            &&& self.rows == variant_rows(self.level)
            &&& self.cols == variant_cols(self.level)
        } else {
            &&& 3 <= self.rows <= 90
            &&& 1 <= self.cols <= 30
            &&& 0 <= self.level <= 8
        }
    }

    /// The data codewords of the row `row`.
    pub open spec fn row_codewords(self, row: int) -> Seq<u16> {
        self.codewords.subrange(row * self.cols, row * self.cols + self.cols)
    }

    /// The fields of the row `row`.
    pub open spec fn row_fields(self, row: int) -> Seq<Seq<bool>> {
        if self.kind == Kind::Micro {
            micro_row_fields(
                self.clusters,
                self.side,
                self.center,
                self.row_codewords(row),
                micro_indices(micro_starts(self.rap, self.level), row),
            )
        } else {
            row_fields(
                self.clusters,
                self.row_codewords(row),
                row % 3,
                row_markers(indicator_values(self.rows, self.cols, self.level), row),
                self.kind == Kind::Truncated,
            )
        }
    }

    /// The modules of the row `row`, before any scaling.
    pub open spec fn row_modules(self, row: int) -> Seq<bool> {
        fields_modules(self.row_fields(row))
    }

    /// The number of modules of every row, before any scaling.
    pub open spec fn width(self) -> int {
        row_width(self.kind, self.cols)
    }
}

/// The number of modules of a row of `cols` data columns: 17 for each
/// codeword. A full row has the start pattern, two row indicators and the
/// end pattern of 18 modules around them; a truncated row the start
/// pattern, one row indicator and a single bar; a row of MicroPDF417 two
/// row address patterns of 10 modules, the stop bar, and a centre pattern
/// of 10 modules where it has three columns or more.
pub open spec fn row_width(kind: Kind, cols: int) -> int {
    match kind {
        Kind::Full => 17 + 17 + cols * 17 + 17 + 18,
        Kind::Truncated => 17 + 17 + cols * 17 + 1,
        Kind::Micro => 10 + cols * 17 + (cols / 3) * 10 + 10 + 1,
    }
}

/// A symbol over its sealed codewords.
#[derive(Clone, Copy, Debug)]
pub struct PDF417<'a> {
    storage: &'a [u16],
    dimensions: (u8, u8),
    level: u8,
    layout: Layout<'a>,
    clusters: &'a ClusterTable,
}

impl<'a> View for PDF417<'a> {
    type V = Symbol;

    closed spec fn view(&self) -> Symbol {
        Symbol {
            codewords: self.storage@,
            rows: self.dimensions.0 as int,
            cols: self.dimensions.1 as int,
            level: self.level as int,
            kind: match self.layout {
                Layout::Full => Kind::Full,
                Layout::Truncated => Kind::Truncated,
                Layout::Micro(_) => Kind::Micro,
            },
            clusters: self.clusters@,
            rap: match self.layout {
                Layout::Micro(tables) => tables.rap(),
                _ => Seq::empty(),
            },
            side: match self.layout {
                Layout::Micro(tables) => tables.side(),
                _ => Seq::empty(),
            },
            center: match self.layout {
                Layout::Micro(tables) => tables.center(),
                _ => Seq::empty(),
            },
        }
    }
}

/// Tells whether every one of `codewords` is a codeword: a number up to
/// 928.
pub fn check_codewords(codewords: &[u16]) -> (r: bool)
    ensures
        r == all_codewords(codewords@),
{
    let n = codewords.len();
    let mut i: usize = 0;
    while i < n
        invariant
            i <= n,
            n == codewords@.len(),
            forall|j: int| 0 <= j < i ==> #[trigger] codewords@[j] < 929,
        decreases n - i,
    {
        if codewords[i] >= 929 {
            return false;
        }
        i = i + 1;
    }
    true
}

impl<'a> PDF417<'a> {
    #[verifier::type_invariant]
    spec fn drawable(self) -> bool {
        self@.valid()
    }

    /// Creates a full symbol of `rows` rows and `cols` data columns over
    /// its sealed codewords, with the correction level that they were
    /// sealed with.
    pub fn new(
        storage: &'a [u16],
        rows: u8,
        cols: u8,
        level: u8,
        clusters: &'a ClusterTable,
    ) -> (r: Self)
        requires
            MIN_ROWS <= rows <= MAX_ROWS,
            MIN_COLS <= cols <= MAX_COLS,
            storage@.len() == rows * cols,
            level < 9,
            all_codewords(storage@),
        ensures
            r@.valid(),
            r@.codewords == storage@,
            r@.rows == rows,
            r@.cols == cols,
            r@.level == level,
            r@.kind == Kind::Full,
            r@.clusters == clusters@,
    {
        PDF417 { storage, dimensions: (rows, cols), level, layout: Layout::Full, clusters }
    }

    /// Creates a truncated symbol of `rows` rows and `cols` data columns
    /// over its sealed codewords, with the correction level that they were
    /// sealed with.
    pub fn new_truncated(
        storage: &'a [u16],
        rows: u8,
        cols: u8,
        level: u8,
        clusters: &'a ClusterTable,
    ) -> (r: Self)
        requires
            MIN_ROWS <= rows <= MAX_ROWS,
            MIN_COLS <= cols <= MAX_COLS,
            storage@.len() == rows * cols,
            level < 9,
            all_codewords(storage@),
        ensures
            r@.valid(),
            r@.codewords == storage@,
            r@.rows == rows,
            r@.cols == cols,
            r@.level == level,
            r@.kind == Kind::Truncated,
            r@.clusters == clusters@,
    {
        PDF417 { storage, dimensions: (rows, cols), level, layout: Layout::Truncated, clusters }
    }

    /// Creates a MicroPDF417 symbol of the variant `v` over its sealed
    /// codewords.
    pub fn from_variant(
        storage: &'a [u16],
        v: Variant,
        clusters: &'a ClusterTable,
        tables: &'a MicroTables,
    ) -> (r: Self)
        requires
            storage@.len() == variant_rows(v@) * variant_cols(v@),
            all_codewords(storage@),
        ensures
            r@.valid(),
            r@.codewords == storage@,
            r@.rows == variant_rows(v@),
            r@.cols == variant_cols(v@),
            r@.level == v@,
            r@.kind == Kind::Micro,
            r@.clusters == clusters@,
            r@.rap == tables.rap(),
            r@.side == tables.side(),
            r@.center == tables.center(),
    {
        PDF417 {
            storage,
            dimensions: (v.rows(), v.cols()),
            level: v.variant(),
            layout: Layout::Micro(tables),
            clusters,
        }
    }

    /// Returns the number of rows of the symbol.
    pub fn rows(&self) -> (r: u8)
        ensures
            r == self@.rows,
            self@.valid(),
    {
        proof {
            use_type_invariant(self);
        }
        self.dimensions.0
    }

    /// Returns the number of data columns of the symbol.
    pub fn cols(&self) -> (r: u8)
        ensures
            r == self@.cols,
            self@.valid(),
    {
        proof {
            use_type_invariant(self);
        }
        self.dimensions.1
    }

    /// Returns the correction level of a regular symbol, and the number of
    /// the variant of a MicroPDF417 symbol.
    pub fn level(&self) -> (r: u8)
        ensures
            r == self@.level,
            self@.valid(),
    {
        proof {
            use_type_invariant(self);
        }
        self.level
    }

    /// Returns the form of the symbol.
    pub fn kind(&self) -> (r: Kind)
        ensures
            r == self@.kind,
            self@.valid(),
    {
        proof {
            use_type_invariant(self);
        }
        match self.layout {
            Layout::Full => Kind::Full,
            Layout::Truncated => Kind::Truncated,
            Layout::Micro(_) => Kind::Micro,
        }
    }

    /// Returns the number of modules of every row, before any scaling.
    pub fn width(&self) -> (r: u32)
        ensures
            r == self@.width(),
            22 <= r <= 579,
    {
        proof {
            use_type_invariant(self);
            if self@.kind == Kind::Micro {
                lemma_variant_bounds(self@.level);
            }
        }
        let cols = self.dimensions.1 as u32;
        match self.layout {
            Layout::Full => 17 + 17 + cols * 17 + 17 + 18,
            Layout::Truncated => 17 + 17 + cols * 17 + 1,
            Layout::Micro(_) => 10 + cols * 17 + (cols / 3) * 10 + 10 + 1,
        }
    }

    /// Returns the rows of the symbol, to be taken one after the other.
    pub fn iter(&self) -> (r: PDF417RowIterator<'a>)
        ensures
            r.symbol() == self@,
            r.index() == 0,
    {
        PDF417RowIterator::new(*self)
    }

    /// Returns the modules of the symbol, to be taken one after the
    /// other, row after row: every module once, a bar as `true`.
    pub fn bits(&self) -> (r: ModuleStream<'a>)
        ensures
            r.wf(),
            r.rendering() == (Rendering {
                symbol: self@,
                scale_x: 1,
                scale_y: 1,
                inverted: false,
            }),
            r.remaining() == r.rendering().modules(),
    {
        let render = PDF417Render { inner: *self, scale: (1, 1), inverted: false };
        render.bits()
    }

    /// Returns the drawing of the symbol at the scale that suits its
    /// form: every module once across, and once down for a regular symbol
    /// and twice for a MicroPDF417 symbol.
    pub fn render(self) -> (r: PDF417Render<'a>)
        ensures
            r@.valid(),
            r@.symbol == self@,
            r@.scale_x == 1,
            r@.scale_y == (if self@.kind == Kind::Micro {
                2int
            } else {
                1int
            }),
            !r@.inverted,
    {
        proof {
            use_type_invariant(&self);
        }
        let scale: (u16, u16) = match self.layout {
            Layout::Micro(_) => (1, 2),
            _ => (1, 1),
        };
        PDF417Render { inner: self, scale, inverted: false }
    }

    /// The row of the number `row`, about to emit its first field.
    pub fn row(&self, row: u8) -> (r: Row<'a>)
        requires
            row < self@.rows,
        ensures
            r.remaining() == self@.row_fields(row as int),
    {
        proof {
            use_type_invariant(self);
            if self@.kind == Kind::Micro {
                lemma_variant_bounds(self@.level);
            }
        }
        let cols = self.dimensions.1 as usize;
        let ghost total = self@.rows * self@.cols;
        assert((row + 1) * cols <= total) by (nonlinear_arith)
            requires
                row < self@.rows,
                cols == self@.cols,
                total == self@.rows * self@.cols,
                cols >= 0,
        ;
        assert((row + 1) * cols == row * cols + cols) by (nonlinear_arith);
        assert(total <= 90 * 30) by (nonlinear_arith)
            requires
                total == self@.rows * self@.cols,
                0 <= self@.rows <= 90,
                0 <= self@.cols <= 30,
        ;
        let start = row as usize * cols;
        let codewords = slice_subrange(self.storage, start, start + cols);
        match self.layout {
            Layout::Micro(tables) => {
                let infos = MicroPDF417Row::prepare(self.dimensions, self.level, tables);
                Row::Micro(MicroPDF417Row::init(codewords, row, infos, self.clusters, tables))
            },
            Layout::Full => {
                let infos = PDF417Row::prepare(self.dimensions, self.level);
                Row::Regular(PDF417Row::new(codewords, row, infos, false, self.clusters))
            },
            Layout::Truncated => {
                let infos = PDF417Row::prepare(self.dimensions, self.level);
                Row::Regular(PDF417Row::new(codewords, row, infos, true, self.clusters))
            },
        }
    }
}

/// `times` modules of one colour.
pub open spec fn repeated(bit: bool, times: nat) -> Seq<bool> {
    Seq::new(times, |i: int| bit)
}

/// The modules `bits` as they are drawn: each of them `times` times, and
/// bars for spaces where `inverted` is set.
pub open spec fn stretch(bits: Seq<bool>, times: nat, inverted: bool) -> Seq<bool>
    decreases bits.len(),
{
    if bits.len() == 0 {
        Seq::empty()
    } else {
        repeated(bits[0] != inverted, times) + stretch(bits.skip(1), times, inverted)
    }
}

/// The weight of the module of index `t` within its byte: the first
/// module of eight is the most significant bit.
pub open spec fn bit_weight(t: int) -> int {
    if t == 0 {
        128
    } else if t == 1 {
        64
    } else if t == 2 {
        32
    } else if t == 3 {
        16
    } else if t == 4 {
        8
    } else if t == 5 {
        4
    } else if t == 6 {
        2
    } else {
        1
    }
}

/// The sum of the weights of those of the first `t` modules of the byte
/// `j` that are set.
pub open spec fn byte_sum(bits: Seq<bool>, j: int, t: int) -> int
    decreases t,
{
    if t <= 0 {
        0
    } else {
        byte_sum(bits, j, t - 1) + if 8 * j + t - 1 < bits.len() && bits[8 * j + t - 1] {
            bit_weight(t - 1)
        } else {
            0
        }
    }
}

/// The byte `j` of the modules `bits`, eight modules to a byte, the first
/// of them the most significant bit; modules that `bits` lacks count as
/// not set.
pub open spec fn packed_byte(bits: Seq<bool>, j: int) -> u8 {
    byte_sum(bits, j, 8) as u8
}

/// The number of bytes that hold `len` modules.
pub open spec fn packed_len(len: int) -> int {
    (len + 7) / 8
}

/// The weights of the first `t` modules of a byte leave room for those
/// of the others.
pub proof fn lemma_byte_sum_bound(bits: Seq<bool>, j: int, t: int)
    requires
        0 <= t <= 8,
    ensures
        0 <= byte_sum(bits, j, t),
        t < 8 ==> byte_sum(bits, j, t) + 2 * bit_weight(t) <= 256,
        t == 8 ==> byte_sum(bits, j, t) <= 255,
    decreases t,
{
    if t > 0 {
        lemma_byte_sum_bound(bits, j, t - 1);
    }
}

/// Modules that `bits` lacks add nothing to a byte.
pub proof fn lemma_byte_sum_tail(bits: Seq<bool>, j: int, t: int, u: int)
    requires
        0 <= t <= u,
        bits.len() <= 8 * j + t,
    ensures
        byte_sum(bits, j, u) == byte_sum(bits, j, t),
    decreases u - t,
{
    if t < u {
        lemma_byte_sum_tail(bits, j, t, u - 1);
    }
}

/// What is drawn of a symbol: the symbol, the number of times that every
/// module is drawn across and down, and whether bars and spaces change
/// places.
pub struct Rendering {
    pub symbol: Symbol,
    pub scale_x: int,
    pub scale_y: int,
    pub inverted: bool,
}

impl Rendering {
    /// Tells whether the symbol can be drawn and is drawn at a scale of
    /// one or more in both directions.
    pub open spec fn valid(self) -> bool {
        self.symbol.valid() && self.scale_x >= 1 && self.scale_y >= 1
    }

    /// The number of modules of a line that is drawn.
    pub open spec fn width(self) -> int {
        self.symbol.width() * self.scale_x
    }

    /// The number of lines that are drawn.
    pub open spec fn height(self) -> int {
        self.symbol.rows * self.scale_y
    }

    /// A line of the row `row` as it is drawn.
    pub open spec fn line(self, row: int) -> Seq<bool> {
        stretch(self.symbol.row_modules(row), self.scale_x as nat, self.inverted)
    }

    /// The modules that are drawn from the line `rep` of the row `row`
    /// on, line after line.
    pub open spec fn modules_from(self, row: int, rep: int) -> Seq<bool>
        decreases self.symbol.rows - row, self.scale_y - rep,
    {
        if row < 0 || row >= self.symbol.rows {
            Seq::empty()
        } else if rep >= self.scale_y {
            self.modules_from(row + 1, 0)
        } else {
            self.line(row) + self.modules_from(row, rep + 1)
        }
    }

    /// The modules that are drawn, line after line: every row `scale_y`
    /// times, and in it every module `scale_x` times.
    pub open spec fn modules(self) -> Seq<bool> {
        self.modules_from(0, 0)
    }
}

/// Drawing two runs of modules is drawing the first and then the second.
pub proof fn lemma_stretch_concat(a: Seq<bool>, b: Seq<bool>, times: nat, inverted: bool)
    ensures
        stretch(a + b, times, inverted) == stretch(a, times, inverted) + stretch(
            b,
            times,
            inverted,
        ),
    decreases a.len(),
{
    if a.len() == 0 {
        assert(a + b =~= b);
        assert(stretch(a, times, inverted) + stretch(b, times, inverted) =~= stretch(
            b,
            times,
            inverted,
        ));
    } else {
        lemma_stretch_concat(a.skip(1), b, times, inverted);
        assert((a + b).skip(1) =~= a.skip(1) + b);
        assert(stretch(a + b, times, inverted) =~= stretch(a, times, inverted) + stretch(
            b,
            times,
            inverted,
        ));
    }
}

/// A symbol as it is to be drawn: at a scale, and with bars and spaces as
/// they are or inverted.
#[derive(Clone, Copy, Debug)]
pub struct PDF417Render<'a> {
    inner: PDF417<'a>,
    scale: (u16, u16),
    inverted: bool,
}

impl<'a> View for PDF417Render<'a> {
    type V = Rendering;

    closed spec fn view(&self) -> Rendering {
        Rendering {
            symbol: self.inner@,
            scale_x: self.scale.0 as int,
            scale_y: self.scale.1 as int,
            inverted: self.inverted,
        }
    }
}

impl<'a> From<PDF417<'a>> for PDF417Render<'a> {
    /// The drawing of the symbol at the scale that suits its form.
    fn from(inner: PDF417<'a>) -> (r: Self) {
        let scale: (u16, u16) = match inner.layout {
            Layout::Micro(_) => (1, 2),
            _ => (1, 1),
        };
        PDF417Render { inner, scale, inverted: false }
    }
}

impl<'a> vstd::std_specs::convert::FromSpecImpl<PDF417<'a>> for PDF417Render<'a> {
    open spec fn obeys_from_spec() -> bool {
        true
    }

    closed spec fn from_spec(inner: PDF417<'a>) -> Self {
        PDF417Render {
            inner,
            scale: match inner.layout {
                Layout::Micro(_) => (1u16, 2u16),
                _ => (1u16, 1u16),
            },
            inverted: false,
        }
    }
}

impl<'a> PDF417Render<'a> {
    #[verifier::type_invariant]
    spec fn scaled(self) -> bool {
        self.scale.0 >= 1 && self.scale.1 >= 1
    }

    /// What the conversion from a symbol gives is the drawing of the
    /// symbol at the scale that suits its form: every module once across,
    /// and once down for a regular symbol and twice for a MicroPDF417
    /// symbol.
    pub proof fn lemma_from(inner: PDF417<'a>)
        ensures
            <Self as vstd::std_specs::convert::FromSpec<PDF417<'a>>>::from_spec(inner)@ == (Rendering {
                symbol: inner@,
                scale_x: 1,
                scale_y: if inner@.kind == Kind::Micro {
                    2
                } else {
                    1
                },
                inverted: false,
            }),
    {
    }

    /// Returns the symbol that is drawn.
    pub fn symbol(&self) -> (r: PDF417<'a>)
        ensures
            r@ == self@.symbol,
    {
        self.inner
    }

    /// Returns the number of modules of a line that is drawn.
    pub fn width(&self) -> (r: u32)
        ensures
            r == self@.width(),
            self@.valid(),
    {
        proof {
            use_type_invariant(self);
            use_type_invariant(&self.inner);
        }
        let w = self.inner.width();
        let sx = self.scale.0 as u32;
        assert(w * sx <= 579 * 65535) by (nonlinear_arith)
            requires
                0 <= w <= 579,
                0 <= sx <= 65535,
        ;
        w * sx
    }

    /// Returns the number of lines that are drawn.
    pub fn height(&self) -> (r: u32)
        ensures
            r == self@.height(),
            self@.valid(),
    {
        proof {
            use_type_invariant(self);
            use_type_invariant(&self.inner);
        }
        let h = self.inner.rows() as u32;
        let sy = self.scale.1 as u32;
        assert(h * sy <= 255 * 65535) by (nonlinear_arith)
            requires
                0 <= h <= 255,
                0 <= sy <= 65535,
        ;
        h * sy
    }

    /// Returns the number of times that every module is drawn across and
    /// down.
    pub fn scale(&self) -> (r: (u16, u16))
        ensures
            r.0 == self@.scale_x,
            r.1 == self@.scale_y,
            r.0 >= 1,
            r.1 >= 1,
    {
        proof {
            use_type_invariant(self);
        }
        self.scale
    }

    /// Sets the number of times that every module is drawn across and
    /// down.
    pub fn set_scale(self, scale: (u16, u16)) -> (r: Self)
        requires
            scale.0 >= 1,
            scale.1 >= 1,
        ensures
            r@ == (Rendering { scale_x: scale.0 as int, scale_y: scale.1 as int, ..self@ }),
    {
        PDF417Render { inner: self.inner, scale, inverted: self.inverted }
    }

    /// Tells whether bars and spaces change places in the drawing.
    pub fn inverted(&self) -> (r: bool)
        ensures
            r == self@.inverted,
    {
        self.inverted
    }

    /// Sets whether bars and spaces change places in the drawing.
    pub fn set_inverted(self, inverted: bool) -> (r: Self)
        ensures
            r@ == (Rendering { inverted, ..self@ }),
    {
        proof {
            use_type_invariant(&self);
        }
        PDF417Render { inner: self.inner, scale: self.scale, inverted }
    }

    /// Returns the modules of the drawing, to be taken one after the
    /// other, line after line: a bar as `true`, and as `false` where the
    /// drawing is inverted.
    pub fn bits(&self) -> (r: ModuleStream<'a>)
        ensures
            r.wf(),
            r.rendering() == self@,
            r.remaining() == self@.modules(),
    {
        proof {
            use_type_invariant(self);
            use_type_invariant(&self.inner);
            if self@.symbol.kind == Kind::Micro {
                lemma_variant_bounds(self@.symbol.level);
            }
            vstd::arithmetic::power2::lemma2_to64();
        }
        let row = self.inner.row(0);
        let stream = ModuleStream {
            render: *self,
            row_index: 0,
            rep: 0,
            row,
            field: Bitfield::new(0, 0),
            bit: false,
            copies: 0,
        };
        proof {
            assert(stream.field@ =~= Seq::<bool>::empty());
            assert(self@.modules_from(0, 0) == self@.line(0) + self@.modules_from(0, 1));
            assert(stream.remaining() =~= self@.modules());
        }
        stream
    }

    /// Writes the drawing into `target`, a slot for every module: a copy
    /// of `on` for `true` and a copy of `off` for `false`. The slots
    /// behind the drawing stay as they are.
    pub fn fill<P: Clone>(&self, target: &mut [P], on: &P, off: &P)
        requires
            self@.modules().len() <= old(target)@.len(),
        ensures
            final(target)@.len() == old(target)@.len(),
            forall|i: int|
                0 <= i < self@.modules().len() ==> cloned(
                    if self@.modules()[i] {
                        *on
                    } else {
                        *off
                    },
                    #[trigger] final(target)@[i],
                ),
            forall|i: int|
                self@.modules().len() <= i < old(target)@.len() ==> #[trigger] final(target)@[i]
                    == old(target)@[i],
    {
        let ghost all = self@.modules();
        let mut stream = self.bits();
        let mut i: usize = 0;
        let mut next = stream.next();
        let size = target.len();
        while next.is_some()
            invariant
                stream.wf(),
                size == target@.len(),
                target@.len() == old(target)@.len(),
                all.len() <= size,
                i <= all.len(),
                match next {
                    Some(bit) => i < all.len() && bit == all[i as int] && stream.remaining()
                        == all.skip(i + 1),
                    None => i == all.len() && stream.remaining().len() == 0,
                },
                forall|j: int|
                    0 <= j < i ==> cloned(
                        if all[j] {
                            *on
                        } else {
                            *off
                        },
                        #[trigger] target@[j],
                    ),
                forall|j: int| i <= j < size ==> #[trigger] target@[j] == old(target)@[j],
            decreases all.len() - i,
        {
            let bit = next.unwrap();
            target[i] = if bit {
                on.clone()
            } else {
                off.clone()
            };
            i = i + 1;
            next = stream.next();
            proof {
                if next.is_some() {
                    assert(all.skip(i as int).skip(1) =~= all.skip(i + 1));
                } else {
                    assert(all.skip(i as int).len() == 0);
                }
            }
        }
    }

    /// Writes the drawing into `target`, a slot for every module. The
    /// slots behind the drawing stay as they are.
    pub fn fill_bits(&self, target: &mut [bool])
        requires
            self@.modules().len() <= old(target)@.len(),
        ensures
            final(target)@ == self@.modules() + old(target)@.skip(self@.modules().len() as int),
    {
        self.fill(target, &true, &false);
        assert(target@ =~= self@.modules() + old(target)@.skip(self@.modules().len() as int));
    }
}

impl<'a> PDF417Render<'a> {
    /// Writes the drawing into `target`, eight modules to a byte and the
    /// first of them the most significant bit: the bit of every module
    /// that is `true` is set, and no bit is cleared.
    pub fn fill_bitmap(&self, target: &mut [u8])
        requires
            packed_len(self@.modules().len() as int) <= old(target)@.len(),
        ensures
            final(target)@.len() == old(target)@.len(),
            forall|j: int|
                0 <= j < packed_len(self@.modules().len() as int) ==> #[trigger] final(target)@[j]
                    == old(target)@[j] | packed_byte(self@.modules(), j),
            forall|j: int|
                packed_len(self@.modules().len() as int) <= j < old(target)@.len()
                    ==> #[trigger] final(target)@[j] == old(target)@[j],
    {
        let ghost all = self@.modules();
        let mut stream = self.bits();
        let mut i: Ghost<int> = Ghost(0);
        let mut j: usize = 0;
        let mut t: u8 = 0;
        let mut acc: u8 = 0;
        let mut weight: u8 = 128;
        let mut next = stream.next();
        let size = target.len();
        while next.is_some()
            invariant
                stream.wf(),
                size == target@.len(),
                target@.len() == old(target)@.len(),
                packed_len(all.len() as int) <= size,
                0 <= i@ <= all.len(),
                i@ == 8 * j + t,
                t < 8,
                weight == bit_weight(t as int),
                acc == byte_sum(all, j as int, t as int),
                match next {
                    Some(bit) => i@ < all.len() && bit == all[i@] && stream.remaining() == all.skip(
                        i@ + 1,
                    ),
                    None => i@ == all.len() && stream.remaining().len() == 0,
                },
                forall|k: int|
                    0 <= k < j ==> #[trigger] target@[k] == old(target)@[k] | packed_byte(all, k),
                forall|k: int| j <= k < size ==> #[trigger] target@[k] == old(target)@[k],
            decreases all.len() - i@,
        {
            let bit = next.unwrap();
            proof {
                lemma_byte_sum_bound(all, j as int, t as int);
                lemma_byte_sum_bound(all, j as int, t + 1);
            }
            if bit {
                acc = acc + weight;
            }
            t = t + 1;
            if t == 8 {
                target[j] = target[j] | acc;
                j = j + 1;
                t = 0;
                acc = 0;
                weight = 128;
            } else {
                weight = weight / 2;
            }
            proof {
                i@ = i@ + 1;
            }
            next = stream.next();
            proof {
                if next.is_some() {
                    assert(all.skip(i@).skip(1) =~= all.skip(i@ + 1));
                } else {
                    assert(all.skip(i@).len() == 0);
                }
            }
        }
        if t > 0 {
            proof {
                lemma_byte_sum_tail(all, j as int, t as int, 8);
                lemma_byte_sum_bound(all, j as int, 8);
            }
            target[j] = target[j] | acc;
        }
    }
}

/// The modules of a drawing, handed out one after the other.
#[derive(Clone, Copy, Debug)]
pub struct ModuleStream<'a> {
    render: PDF417Render<'a>,
    row_index: u8,
    rep: u16,
    row: Row<'a>,
    field: Bitfield,
    bit: bool,
    copies: u16,
}

impl<'a> ModuleStream<'a> {
    /// The drawing that the modules are of.
    pub closed spec fn rendering(self) -> Rendering {
        self.render@
    }

    /// What holds of every stream: it stands at a line of its drawing.
    pub closed spec fn wf(self) -> bool {
        &&& self.render@.valid()
        &&& self.row_index < self.render@.symbol.rows
        &&& self.rep < self.render@.scale_y
        &&& self.copies <= self.render@.scale_x
    }

    /// The modules that the stream has not handed out yet.
    pub closed spec fn remaining(self) -> Seq<bool> {
        let r = self.render@;
        repeated(self.bit != r.inverted, self.copies as nat) + stretch(
            self.field@,
            r.scale_x as nat,
            r.inverted,
        ) + stretch(fields_modules(self.row.remaining()), r.scale_x as nat, r.inverted)
            + r.modules_from(self.row_index as int, self.rep + 1)
    }

    /// Hands out the next module, where one is left: `true` for a bar.
    pub fn next(&mut self) -> (r: Option<bool>)
        requires
            old(self).wf(),
        ensures
            final(self).wf(),
            final(self).rendering() == old(self).rendering(),
            match r {
                Some(bit) => {
                    &&& old(self).remaining().len() > 0
                    &&& bit == old(self).remaining()[0]
                    &&& final(self).remaining() == old(self).remaining().skip(1)
                },
                None => old(self).remaining().len() == 0 && final(self).remaining().len() == 0,
            },
    {
        let ghost before = self.remaining();
        let ghost r = self.render@;
        let sx = self.render.scale.0;
        let sy = self.render.scale.1;
        let rows = self.render.inner.rows();
        loop
            invariant
                self.wf(),
                self.render@ == r,
                self.remaining() == before,
                before == old(self).remaining(),
                r == old(self).rendering(),
                sx == r.scale_x,
                sy == r.scale_y,
                rows == r.symbol.rows,
            decreases
                    r.symbol.rows - self.row_index,
                    r.scale_y - self.rep,
                    self.row.remaining().len(),
                    self.field@.len(),
                    if self.copies > 0 {
                        0int
                    } else {
                        1int
                    },
        {
            if self.copies > 0 {
                self.copies = self.copies - 1;
                proof {
                    assert(self.remaining() =~= before.skip(1));
                }
                return Some(self.bit != self.render.inverted);
            }
            match self.field.next() {
                Some(bit) => {
                    self.bit = bit;
                    self.copies = sx;
                    proof {
                        assert(self.remaining() =~= before);
                    }
                    continue ;
                },
                None => {},
            }
            match self.row.next() {
                Some(field) => {
                    self.field = field;
                    proof {
                        lemma_stretch_concat(
                            field@,
                            fields_modules(self.row.remaining()),
                            r.scale_x as nat,
                            r.inverted,
                        );
                        assert(self.remaining() =~= before);
                    }
                    continue ;
                },
                None => {},
            }
            proof {
                assert(fields_modules(self.row.remaining()) =~= Seq::<bool>::empty());
                assert(before =~= r.modules_from(self.row_index as int, self.rep + 1));
            }
            if self.rep < sy - 1 {
                self.rep = self.rep + 1;
                self.row = self.render.inner.row(self.row_index);
                proof {
                    assert(self.remaining() =~= before);
                }
                continue ;
            }
            proof {
                assert(r.modules_from(self.row_index as int, self.rep + 1) == r.modules_from(
                    self.row_index + 1,
                    0,
                ));
            }
            if self.row_index < rows - 1 {
                self.row_index = self.row_index + 1;
                self.rep = 0;
                self.row = self.render.inner.row(self.row_index);
                proof {
                    assert(r.modules_from(self.row_index as int, 0) == r.line(
                        self.row_index as int,
                    ) + r.modules_from(self.row_index as int, 1));
                    assert(self.remaining() =~= before);
                }
                continue ;
            }
            proof {
                assert(r.modules_from(self.row_index + 1, 0) =~= Seq::<bool>::empty());
                assert(before =~= Seq::<bool>::empty());
            }
            return None;
        }
    }
}

} // verus!
