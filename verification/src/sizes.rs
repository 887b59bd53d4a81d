//! The size of a drawing, to make room for it.

use crate::builder::{row_width, Kind};
use vstd::prelude::*;

verus! {

/// The width in modules of a regular symbol of `cols` data columns that
/// is drawn at the scale `scale_x` across, full or truncated.
pub fn pdf417_width(cols: u8, scale_x: u16, truncated: bool) -> (r: usize)
    ensures
        r == row_width(
            if truncated {
                Kind::Truncated
            } else {
                Kind::Full
            },
            cols as int,
        ) * scale_x,
{
    let modules: usize = if truncated {
        17 + 17 + cols as usize * 17 + 1
    } else {
        17 + 17 + cols as usize * 17 + 17 + 18
    };
    assert(modules * scale_x <= 4404 * 65535) by (nonlinear_arith)
        requires
            0 <= modules <= 4404,
            0 <= scale_x <= 65535,
    ;
    modules * scale_x as usize
}

/// The height in modules of a regular symbol of `rows` rows that is drawn
/// at the scale `scale_y` down.
pub fn pdf417_height(rows: u8, scale_y: u16) -> (r: usize)
    ensures
        r == rows * scale_y,
{
    assert(rows * scale_y <= 255 * 65535) by (nonlinear_arith)
        requires
            0 <= rows <= 255,
            0 <= scale_y <= 65535,
    ;
    rows as usize * scale_y as usize
}

/// The width in modules of a MicroPDF417 symbol of `cols` data columns
/// that is drawn at the scale `scale_x` across.
pub fn m_pdf417_width(cols: u8, scale_x: u16) -> (r: usize)
    ensures
        r == row_width(Kind::Micro, cols as int) * scale_x,
{
    let modules: usize = 10 + cols as usize * 17 + (cols as usize / 3) * 10 + 10 + 1;
    assert(modules * scale_x <= 5206 * 65535) by (nonlinear_arith)
        requires
            0 <= modules <= 5206,
            0 <= scale_x <= 65535,
    ;
    modules * scale_x as usize
}

/// The height in modules of a MicroPDF417 symbol of `rows` rows that is
/// drawn at the scale `scale_y` down.
pub fn m_pdf417_height(rows: u8, scale_y: u16) -> (r: usize)
    ensures
        r == rows * scale_y,
{
    assert(rows * scale_y <= 255 * 65535) by (nonlinear_arith)
        requires
            0 <= rows <= 255,
            0 <= scale_y <= 65535,
    ;
    rows as usize * scale_y as usize
}

} // verus!
