//! The shape of a drawing: the width of its lines, their number, and what
//! scaling, inversion and truncation do to its modules.

use crate::builder::{stretch, Kind, Rendering, Symbol};
use crate::generators::micro_pdf417::{
    center_fields, end_rap_modules, left_columns, micro_indices, rap_modules,
};
use crate::generators::pdf417::{
    codeword_modules, data_fields, end_modules, indicator_values, row_fields, row_markers,
    row_tail, start_modules, stop_modules,
};
use crate::generators::row::{
    fields_modules, lemma_fields_modules_concat, lemma_fields_modules_len,
};
use crate::tables::{lemma_variant_bounds, micro_starts};
use vstd::prelude::*;

verus! {

/// The modules of a single field are the field.
pub proof fn lemma_fields_modules_one(a: Seq<bool>)
    ensures
        fields_modules(seq![a]) == a,
{
    assert(seq![a].skip(1) =~= Seq::<Seq<bool>>::empty());
    assert(fields_modules(seq![a].skip(1)) =~= Seq::<bool>::empty());
    assert(seq![a][0] == a);
    assert(fields_modules(seq![a]) =~= a);
}

/// The modules of two fields are the first field and then the second.
pub proof fn lemma_fields_modules_two(a: Seq<bool>, b: Seq<bool>)
    ensures
        fields_modules(seq![a, b]) == a + b,
{
    assert(seq![a, b].skip(1) =~= seq![b]);
    lemma_fields_modules_one(b);
    assert(fields_modules(seq![a, b]) =~= a + b);
}

/// The rows of a symbol that can be drawn lie within its codewords, each
/// with as many codewords as the symbol has columns.
pub proof fn lemma_row_codewords(symbol: Symbol, row: int)
    requires
        symbol.valid(),
        0 <= row < symbol.rows,
    ensures
        0 <= row * symbol.cols,
        row * symbol.cols + symbol.cols <= symbol.codewords.len(),
        symbol.row_codewords(row).len() == symbol.cols,
        1 <= symbol.cols <= 30,
{
    if symbol.kind == Kind::Micro {
        lemma_variant_bounds(symbol.level);
    }
    let cols = symbol.cols;
    let rows = symbol.rows;
    assert(0 <= row * cols && row * cols + cols <= rows * cols) by (nonlinear_arith)
        requires
            0 <= row < rows,
            cols >= 1,
    ;
}

/// Every row of a symbol that can be drawn has the width of the symbol.
pub proof fn lemma_row_width(symbol: Symbol, row: int)
    requires
        symbol.valid(),
        0 <= row < symbol.rows,
    ensures
        symbol.row_modules(row).len() == symbol.width(),
        symbol.width() >= 22,
{
    lemma_row_codewords(symbol, row);
    let cw = symbol.row_codewords(row);
    let cols = symbol.cols;
    if symbol.kind == Kind::Micro {
        lemma_variant_bounds(symbol.level);
        let indices = micro_indices(micro_starts(symbol.rap, symbol.level), row);
        let split = left_columns(cols);
        let a = seq![rap_modules(symbol.side, indices.0)];
        let b = data_fields(symbol.clusters, indices.3, cw.subrange(0, split));
        let c = center_fields(symbol.center, indices.1, cols);
        let d = data_fields(symbol.clusters, indices.3, cw.subrange(split, cols));
        let e = seq![end_rap_modules(symbol.side, indices.2)];
        assert(symbol.row_fields(row) == a + b + c + d + e);
        lemma_fields_modules_concat(a + b + c + d, e);
        lemma_fields_modules_concat(a + b + c, d);
        lemma_fields_modules_concat(a + b, c);
        lemma_fields_modules_concat(a, b);
        lemma_fields_modules_one(rap_modules(symbol.side, indices.0));
        lemma_fields_modules_one(end_rap_modules(symbol.side, indices.2));
        lemma_fields_modules_len(b, 17);
        lemma_fields_modules_len(d, 17);
        if cols > 2 {
            lemma_fields_modules_one(rap_modules(symbol.center, indices.1));
        } else {
            assert(fields_modules(c) =~= Seq::<bool>::empty());
        }
        assert(b.len() * 17 + d.len() * 17 == cols * 17) by (nonlinear_arith)
            requires
                b.len() + d.len() == cols,
        ;
    } else {
        let truncated = symbol.kind == Kind::Truncated;
        let markers = row_markers(indicator_values(symbol.rows, cols, symbol.level), row);
        let a = seq![start_modules(), codeword_modules(symbol.clusters, row % 3, markers.0)];
        let b = data_fields(symbol.clusters, row % 3, cw);
        let c = row_tail(symbol.clusters, row % 3, markers.1, truncated);
        assert(symbol.row_fields(row) == a + b + c);
        lemma_fields_modules_concat(a + b, c);
        lemma_fields_modules_concat(a, b);
        lemma_fields_modules_two(
            start_modules(),
            codeword_modules(symbol.clusters, row % 3, markers.0),
        );
        lemma_fields_modules_len(b, 17);
        if truncated {
            lemma_fields_modules_one(stop_modules());
        } else {
            lemma_fields_modules_two(
                codeword_modules(symbol.clusters, row % 3, markers.1),
                end_modules(),
            );
        }
        assert(b.len() * 17 == cols * 17) by (nonlinear_arith)
            requires
                b.len() == cols,
        ;
    }
}

/// A run of modules that is drawn `times` times across has `times` times
/// its length, and shows at `i` the module at `i / times`, inverted where
/// the drawing is.
pub proof fn lemma_stretch_index(bits: Seq<bool>, times: nat, inverted: bool, i: int)
    requires
        times >= 1,
        0 <= i < bits.len() * times,
    ensures
        stretch(bits, times, inverted).len() == bits.len() * times,
        0 <= i / (times as int) < bits.len(),
        stretch(bits, times, inverted)[i] == (bits[i / (times as int)] != inverted),
    decreases bits.len(),
{
    lemma_stretch_len(bits, times, inverted);
    let t = times as int;
    if bits.len() == 0 {
        assert(bits.len() * times == 0) by (nonlinear_arith)
            requires
                bits.len() == 0,
        ;
    } else {
        let rest = bits.skip(1);
        lemma_stretch_len(rest, times, inverted);
        assert(bits.len() * times == rest.len() * times + times) by (nonlinear_arith)
            requires
                bits.len() == rest.len() + 1,
        ;
        if i < t {
            vstd::arithmetic::div_mod::lemma_basic_div(i, t);
        } else {
            lemma_stretch_index(rest, times, inverted, i - t);
            assert(i / t == (i - t) / t + 1) by {
                vstd::arithmetic::div_mod::lemma_div_plus_one(i - t, t);
            }
            assert(rest[(i - t) / t] == bits[i / t]);
        }
    }
}

/// A run of modules that is drawn `times` times across has `times` times
/// its length.
pub proof fn lemma_stretch_len(bits: Seq<bool>, times: nat, inverted: bool)
    ensures
        stretch(bits, times, inverted).len() == bits.len() * times,
    decreases bits.len(),
{
    if bits.len() == 0 {
        assert(bits.len() * times == 0) by (nonlinear_arith)
            requires
                bits.len() == 0,
        ;
    } else {
        let rest = bits.skip(1);
        lemma_stretch_len(rest, times, inverted);
        assert(bits.len() * times == rest.len() * times + times) by (nonlinear_arith)
            requires
                bits.len() == rest.len() + 1,
        ;
    }
}

/// Every line of a drawing has the width of the drawing.
pub proof fn lemma_line_width(v: Rendering, row: int)
    requires
        v.valid(),
        0 <= row < v.symbol.rows,
    ensures
        v.line(row).len() == v.width(),
        v.width() >= 22,
{
    lemma_row_width(v.symbol, row);
    lemma_stretch_len(v.symbol.row_modules(row), v.scale_x as nat, v.inverted);
    assert(v.symbol.width() * v.scale_x >= 22) by (nonlinear_arith)
        requires
            v.symbol.width() >= 22,
            v.scale_x >= 1,
    ;
}

/// The number of lines that are drawn from the line `rep` of the row `row`
/// on.
pub open spec fn lines_from(v: Rendering, row: int, rep: int) -> int {
    (v.symbol.rows - row) * v.scale_y - rep
}

/// What is drawn from a line on consists of whole lines, and its line `k`
/// is a line of the row that lies `(rep + k) / scale_y` rows further down.
pub proof fn lemma_modules_from(v: Rendering, row: int, rep: int, k: int, x: int)
    requires
        v.valid(),
        0 <= row < v.symbol.rows,
        0 <= rep <= v.scale_y,
        0 <= k < lines_from(v, row, rep),
        0 <= x < v.width(),
    ensures
        v.modules_from(row, rep).len() == lines_from(v, row, rep) * v.width(),
        0 <= k * v.width() + x < v.modules_from(row, rep).len(),
        row + (rep + k) / v.scale_y < v.symbol.rows,
        v.modules_from(row, rep)[k * v.width() + x] == v.line(row + (rep + k) / v.scale_y)[x],
    decreases v.symbol.rows - row, v.scale_y - rep,
{
    let w = v.width();
    let sy = v.scale_y;
    lemma_modules_from_len(v, row, rep);
    lemma_line_width(v, row);
    assert(0 <= k * w + x < lines_from(v, row, rep) * w) by (nonlinear_arith)
        requires
            0 <= k < lines_from(v, row, rep),
            0 <= x < w,
    ;
    if rep >= sy {
        // The lines of this row are drawn; the next row follows.
        assert(lines_from(v, row, rep) == (v.symbol.rows - (row + 1)) * sy) by (nonlinear_arith)
            requires
                rep == sy,
                lines_from(v, row, rep) == (v.symbol.rows - row) * sy - rep,
        ;
        assert(row + 1 < v.symbol.rows) by (nonlinear_arith)
            requires
                0 <= k < (v.symbol.rows - (row + 1)) * sy,
                sy >= 1,
        ;
        lemma_modules_from(v, row + 1, 0, k, x);
        assert((rep + k) / sy == 1 + k / sy) by {
            vstd::arithmetic::div_mod::lemma_div_plus_one(k, sy);
        }
    } else if k == 0 {
        vstd::arithmetic::div_mod::lemma_basic_div(rep, sy);
        assert(k * w + x == x) by (nonlinear_arith)
            requires
                k == 0,
        ;
    } else {
        lemma_modules_from_len(v, row, rep + 1);
        lemma_modules_from(v, row, rep + 1, k - 1, x);
        assert((k - 1) * w + x == k * w + x - w) by (nonlinear_arith);
    }
}

/// What is drawn from the line `rep` of the row `row` on has the modules
/// of as many lines as are left.
pub proof fn lemma_modules_from_len(v: Rendering, row: int, rep: int)
    requires
        v.valid(),
        0 <= row <= v.symbol.rows,
        0 <= rep <= v.scale_y,
    ensures
        v.modules_from(row, rep).len() == if row < v.symbol.rows {
            lines_from(v, row, rep) * v.width()
        } else {
            0
        },
    decreases v.symbol.rows - row, v.scale_y - rep,
{
    let w = v.width();
    let sy = v.scale_y;
    if row < v.symbol.rows {
        if rep >= sy {
            lemma_modules_from_len(v, row + 1, 0);
            assert(lines_from(v, row, rep) == (v.symbol.rows - (row + 1)) * sy) by (nonlinear_arith)
                requires
                    rep == sy,
                    lines_from(v, row, rep) == (v.symbol.rows - row) * sy - rep,
            ;
            if row + 1 >= v.symbol.rows {
                assert(lines_from(v, row, rep) * w == 0) by (nonlinear_arith)
                    requires
                        lines_from(v, row, rep) == (v.symbol.rows - (row + 1)) * sy,
                        row + 1 == v.symbol.rows,
                ;
            }
        } else {
            lemma_modules_from_len(v, row, rep + 1);
            lemma_line_width(v, row);
            assert(lines_from(v, row, rep) * w == w + lines_from(v, row, rep + 1) * w)
                by (nonlinear_arith)
                requires
                    lines_from(v, row, rep) == lines_from(v, row, rep + 1) + 1,
            ;
        }
    }
}

/// A drawing has as many modules as its width times its height.
pub proof fn lemma_modules_len(v: Rendering)
    requires
        v.valid(),
    ensures
        v.modules().len() == v.width() * v.height(),
{
    if v.symbol.kind == Kind::Micro {
        lemma_variant_bounds(v.symbol.level);
    }
    lemma_modules_from_len(v, 0, 0);
    assert((v.symbol.rows * v.scale_y) * v.width() == v.width() * (v.symbol.rows * v.scale_y))
        by (nonlinear_arith);
}

/// The module at the column `x` of the line `y` of a drawing is the module
/// at `x / scale_x` of the row `y / scale_y` of the symbol, inverted where
/// the drawing is: every module of the symbol is a block of `scale_x` by
/// `scale_y` modules of one colour.
pub proof fn lemma_module_at(v: Rendering, x: int, y: int)
    requires
        v.valid(),
        0 <= x < v.width(),
        0 <= y < v.height(),
    ensures
        0 <= y * v.width() + x < v.modules().len(),
        0 <= y / v.scale_y < v.symbol.rows,
        0 <= x / v.scale_x < v.symbol.width(),
        v.symbol.row_modules(y / v.scale_y).len() == v.symbol.width(),
        v.modules()[y * v.width() + x] == (v.symbol.row_modules(y / v.scale_y)[x / v.scale_x]
            != v.inverted),
{
    if v.symbol.kind == Kind::Micro {
        lemma_variant_bounds(v.symbol.level);
    }
    lemma_modules_from(v, 0, 0, y, x);
    let row = y / v.scale_y;
    assert(0 <= row) by {
        vstd::arithmetic::div_mod::lemma_div_pos_is_pos(y, v.scale_y);
    }
    lemma_row_width(v.symbol, row);
    lemma_stretch_index(v.symbol.row_modules(row), v.scale_x as nat, v.inverted, x);
}

/// The drawing of a symbol at the scale of one, not inverted.
pub open spec fn plain(symbol: Symbol) -> Rendering {
    Rendering { symbol, scale_x: 1, scale_y: 1, inverted: false }
}

/// Drawing at a scale is drawing at the scale of one and then repeating
/// every module `scale_x` times across and `scale_y` times down, and
/// inverting it where the drawing is inverted.
pub proof fn lemma_scaling(v: Rendering, x: int, y: int)
    requires
        v.valid(),
        0 <= x < v.width(),
        0 <= y < v.height(),
    ensures
        v.width() == plain(v.symbol).width() * v.scale_x,
        v.height() == plain(v.symbol).height() * v.scale_y,
        0 <= y * v.width() + x < v.modules().len(),
        0 <= (y / v.scale_y) * plain(v.symbol).width() + x / v.scale_x < plain(
            v.symbol,
        ).modules().len(),
        v.modules()[y * v.width() + x] == (plain(v.symbol).modules()[(y / v.scale_y) * plain(
            v.symbol,
        ).width() + x / v.scale_x] != v.inverted),
{
    let unit = plain(v.symbol);
    lemma_module_at(v, x, y);
    let ux = x / v.scale_x;
    let uy = y / v.scale_y;
    assert(unit.width() == v.symbol.width() && unit.height() == v.symbol.rows) by (nonlinear_arith)
        requires
            unit.width() == v.symbol.width() * 1,
            unit.height() == v.symbol.rows * 1,
    ;
    lemma_module_at(unit, ux, uy);
}

/// What is drawn depends on nothing but the codewords, the dimensions,
/// the level or variant, the form, the scale, the inversion and the
/// tables that the form draws with: the tables of MicroPDF417 play no
/// part in a regular symbol.
pub proof fn lemma_modules_determined(a: Rendering, b: Rendering)
    requires
        a.symbol.codewords == b.symbol.codewords,
        a.symbol.rows == b.symbol.rows,
        a.symbol.cols == b.symbol.cols,
        a.symbol.level == b.symbol.level,
        a.symbol.kind == b.symbol.kind,
        a.symbol.clusters == b.symbol.clusters,
        a.symbol.kind == Kind::Micro ==> a.symbol.rap == b.symbol.rap && a.symbol.side
            == b.symbol.side && a.symbol.center == b.symbol.center,
        a.scale_x == b.scale_x,
        a.scale_y == b.scale_y,
        a.inverted == b.inverted,
    ensures
        a.modules() == b.modules(),
{
    lemma_modules_from_determined(a, b, 0, 0);
}

/// What is drawn from a line on depends on nothing but what
/// `lemma_modules_determined` names.
pub proof fn lemma_modules_from_determined(a: Rendering, b: Rendering, row: int, rep: int)
    requires
        a.symbol.codewords == b.symbol.codewords,
        a.symbol.rows == b.symbol.rows,
        a.symbol.cols == b.symbol.cols,
        a.symbol.level == b.symbol.level,
        a.symbol.kind == b.symbol.kind,
        a.symbol.clusters == b.symbol.clusters,
        a.symbol.kind == Kind::Micro ==> a.symbol.rap == b.symbol.rap && a.symbol.side
            == b.symbol.side && a.symbol.center == b.symbol.center,
        a.scale_x == b.scale_x,
        a.scale_y == b.scale_y,
        a.inverted == b.inverted,
    ensures
        a.modules_from(row, rep) == b.modules_from(row, rep),
    decreases a.symbol.rows - row, a.scale_y - rep,
{
    if row < 0 || row >= a.symbol.rows {
    } else if rep >= a.scale_y {
        lemma_modules_from_determined(a, b, row + 1, 0);
    } else {
        lemma_modules_from_determined(a, b, row, rep + 1);
        assert(a.symbol.row_fields(row) == b.symbol.row_fields(row));
    }
}

/// The single bar that ends a truncated row is one module, and it is set.
pub proof fn lemma_stop_modules()
    ensures
        stop_modules() == seq![true],
{
    vstd::arithmetic::power2::lemma2_to64();
    assert(crate::generators::bitfield::bit_at(1, 0));
    assert(stop_modules().len() == 1);
    assert(stop_modules()[0] == crate::generators::bitfield::bit_at(1, (1 - 1 - 0) as nat));
    assert(stop_modules() =~= seq![true]);
}

/// A truncated row is the full row without its last 35 modules, the right
/// row indicator and the end pattern, and with a single bar in their
/// place: it is 34 modules shorter.
pub proof fn lemma_truncation(full: Symbol, row: int)
    requires
        full.valid(),
        full.kind == Kind::Full,
        0 <= row < full.rows,
    ensures
        (Symbol { kind: Kind::Truncated, ..full }).valid(),
        (Symbol { kind: Kind::Truncated, ..full }).width() == full.width() - 34,
        full.row_modules(row).len() == full.width(),
        (Symbol { kind: Kind::Truncated, ..full }).row_modules(row) == full.row_modules(
            row,
        ).subrange(0, full.width() - 35).push(true),
{
    let short = Symbol { kind: Kind::Truncated, ..full };
    lemma_row_codewords(full, row);
    lemma_row_width(full, row);
    lemma_row_width(short, row);
    lemma_stop_modules();
    let cw = full.row_codewords(row);
    let markers = row_markers(indicator_values(full.rows, full.cols, full.level), row);
    let a = seq![start_modules(), codeword_modules(full.clusters, row % 3, markers.0)];
    let b = data_fields(full.clusters, row % 3, cw);
    let head = fields_modules(a + b);
    let right = codeword_modules(full.clusters, row % 3, markers.1);
    assert(full.row_fields(row) == a + b + seq![right, end_modules()]);
    assert(short.row_fields(row) == a + b + seq![stop_modules()]);
    lemma_fields_modules_concat(a + b, seq![right, end_modules()]);
    lemma_fields_modules_concat(a + b, seq![stop_modules()]);
    lemma_fields_modules_two(right, end_modules());
    lemma_fields_modules_one(stop_modules());
    assert(head.len() == full.width() - 35);
    assert(short.row_modules(row) =~= full.row_modules(row).subrange(0, full.width() - 35).push(
        true,
    ));
}

} // verus!
