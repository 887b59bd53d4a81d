//! PDF417 and MicroPDF417 barcode encoding: text compaction into
//! codewords, error correction modulo 929, and rendering of the module
//! pattern.
//!
//! A symbol is made in three steps. A [`PDF417Encoder`] writes data
//! segments into a buffer of codewords that the caller provides, and seals
//! it with padding and correction codewords. A [`PDF417`] lays the sealed
//! codewords out in rows, and a [`PDF417Render`] draws the rows as modules
//! at a scale.
//!
//! The bar-space patterns of the codewords and the row address patterns of
//! MicroPDF417 are data of the symbology standard. They are no part of
//! this library: the caller hands them in as a [`ClusterTable`] and as
//! [`MicroTables`].

pub mod bignum;
pub mod builder;
pub mod bytes;
pub mod ecc;
pub mod generators;
pub mod geometry;
pub mod high_level;
pub mod numeric;
pub mod sizes;
pub mod syndrome;
pub mod tables;
pub mod text;

pub use builder::{Kind, ModuleStream, PDF417Render, PDF417};
pub use generators::bitfield::Bitfield;
pub use generators::generator::PDF417RowIterator;
pub use generators::micro_pdf417::MicroPDF417Row;
pub use generators::pdf417::{end_pattern, start_pattern, PDF417Row};
pub use generators::row::Row;
pub use high_level::{
    EncodingMode, PDF417Encoder, CW_PADDING, ECI_CODE_PAGE, ECI_CUSTOM_ID, ECI_GENERAL_ID,
    M_LATCH_BYTE, M_LATCH_BYTE_M6, M_LATCH_NUMERIC, M_LATCH_TEXT, M_SHIFT_BYTE,
};
pub use sizes::{m_pdf417_height, m_pdf417_width, pdf417_height, pdf417_width};
pub use tables::{get_variant, ClusterTable, MicroTables, Variant};
