//! The tables of the symbology.
//!
//! A MicroPDF417 symbol comes in one of 34 variants. Each fixes the number
//! of data columns and rows, the number of correction codewords and the
//! place of their factors in the combined factor table. This module holds
//! them.
//!
//! The bar-space patterns of the codewords and the row address patterns
//! of MicroPDF417 are kept by the caller, who hands them in as a
//! [`ClusterTable`] and as [`MicroTables`]; what this module asks of them
//! is their shape.

use crate::ecc::{factors, lemma_micro_table_slice, micro_table, MICRO_COUNTS, MICRO_OFFSETS};
use vstd::prelude::*;

verus! {

/// The number of codewords that a cluster encodes.
pub const CLUSTER_SIZE: usize = 929;

/// The number of entries of a table of the three clusters.
pub const CLUSTER_TABLE_LEN: usize = 2787;

/// The number of row address patterns of MicroPDF417.
pub const RAP_COUNT: usize = 52;

/// The number of variants of MicroPDF417.
pub const M_PDF417_VARIANTS_COUNT: usize = 34;

/// The variants of MicroPDF417, in four rows of 34 entries: the data
/// columns of each variant, its rows, its correction codewords, and the
/// offset of its factors in the combined factor table.
pub const M_PDF417_VARIANTS: [u16; 136] = [
    1, 1, 1, 1, 1, 1, 2, 2, 2, 2, 2, 2, 2, 3, 3, 3, 3, 3, 3, 3, 3, 3, 3, 4, 4, 4, 4, 4, 4, 4, 4, 4, 4, 4,
    11, 14, 17, 20, 24, 28, 8, 11, 14, 17, 20, 23, 26, 6, 8, 10, 12, 15, 20, 26, 32, 38, 44, 4, 6, 8, 10, 12, 15, 20, 26, 32, 38, 44,
    7, 7, 7, 8, 8, 8, 8, 9, 9, 10, 11, 13, 15, 12, 14, 16, 18, 21, 26, 32, 38, 44, 50, 8, 12, 14, 16, 18, 21, 26, 32, 38, 44, 50,
    0, 0, 0, 7, 7, 7, 7, 15, 15, 24, 34, 57, 84, 45, 70, 99, 115, 133, 154, 180, 212, 250, 294, 7, 45, 70, 99, 115, 133, 154, 180, 212, 250, 294,
];

/// The data columns of the variant `v`, between 1 and 4.
pub open spec fn variant_cols(v: int) -> int {
    M_PDF417_VARIANTS[v] as int
}

/// The rows of the variant `v`, between 4 and 44.
pub open spec fn variant_rows(v: int) -> int {
    M_PDF417_VARIANTS[34 + v] as int
}

/// The correction codewords of the variant `v`, between 7 and 50.
pub open spec fn variant_ecc_count(v: int) -> int {
    M_PDF417_VARIANTS[68 + v] as int
}

/// The offset of the factors of the variant `v` in the combined factor
/// table.
pub open spec fn variant_ecc_offset(v: int) -> int {
    M_PDF417_VARIANTS[102 + v] as int
}

/// The codewords of the variant `v`, correction codewords included.
pub open spec fn variant_size(v: int) -> int {
    variant_rows(v) * variant_cols(v)
}

/// The data codewords that the variant `v` holds.
pub open spec fn variant_capacity(v: int) -> int {
    variant_size(v) - variant_ecc_count(v)
}

/// Tells whether the variant `v` is the one to take for `n` data
/// codewords: it holds them, no variant that holds them has a smaller
/// capacity, and none of the same capacity comes before it.
pub open spec fn is_best_fit(v: int, n: int) -> bool {
    &&& 0 <= v < 34
    &&& n <= variant_capacity(v)
    &&& forall|w: int|
        0 <= w < 34 && n <= #[trigger] variant_capacity(w) ==> variant_capacity(v)
            < variant_capacity(w) || (variant_capacity(v) == variant_capacity(w) && v <= w)
}

/// The figures of every variant lie within the bounds of the symbology.
pub proof fn lemma_variant_bounds(v: int)
    requires
        0 <= v < 34,
    ensures
        1 <= variant_cols(v) <= 4,
        4 <= variant_rows(v) <= 44,
        7 <= variant_ecc_count(v) <= 50,
        variant_ecc_offset(v) + variant_ecc_count(v) <= 344,
        11 <= variant_size(v) <= 176,
        4 <= variant_capacity(v) <= 126,
        variant_ecc_count(v) < variant_size(v),
{
    let rows = variant_rows(v);
    let cols = variant_cols(v);
    if v < 6 {
        assert(cols == 1 && 11 <= rows <= 28);
        assert(rows * cols == rows) by (nonlinear_arith)
            requires
                cols == 1,
        ;
    } else if v < 13 {
        assert(cols == 2 && 8 <= rows <= 26);
        assert(rows * cols == 2 * rows) by (nonlinear_arith)
            requires
                cols == 2,
        ;
    } else if v < 23 {
        assert(cols == 3 && 6 <= rows <= 44);
        assert(rows * cols == 3 * rows) by (nonlinear_arith)
            requires
                cols == 3,
        ;
    } else {
        assert(cols == 4 && 4 <= rows <= 44);
        assert(rows * cols == 4 * rows) by (nonlinear_arith)
            requires
                cols == 4,
        ;
    }
}

/// The place of a count of correction codewords among the seventeen that
/// MicroPDF417 uses.
pub open spec fn count_rank(count: int) -> nat {
    if count <= 16 {
        (count - 7) as nat
    } else if count == 18 {
        10
    } else if count == 21 {
        11
    } else if count == 26 {
        12
    } else if count == 32 {
        13
    } else if count == 38 {
        14
    } else if count == 44 {
        15
    } else {
        16
    }
}

/// The factors that a variant points at in the combined table are the
/// coefficients of the generator polynomial of its count of correction
/// codewords.
pub proof fn lemma_variant_factors(v: int)
    requires
        0 <= v < 34,
    ensures
        micro_table().len() == 344,
        micro_table().subrange(
            variant_ecc_offset(v),
            variant_ecc_offset(v) + variant_ecc_count(v),
        ) == factors(variant_ecc_count(v) as nat),
{
    let n = count_rank(variant_ecc_count(v));
    assert(n < 17);
    assert(MICRO_COUNTS[n as int] == variant_ecc_count(v));
    assert(MICRO_OFFSETS[n as int] == variant_ecc_offset(v));
    lemma_micro_table_slice(n);
}

/// A variant of MicroPDF417, by its number between 0 and 33.
#[derive(Clone, Copy, Debug)]
pub struct Variant {
    index: u8,
}

impl View for Variant {
    type V = int;

    closed spec fn view(&self) -> int {
        self.index as int
    }
}

impl From<Variant> for u8 {
    /// The number of the variant.
    fn from(v: Variant) -> (r: u8) {
        v.variant()
    }
}

impl vstd::std_specs::convert::FromSpecImpl<Variant> for u8 {
    open spec fn obeys_from_spec() -> bool {
        true
    }

    open spec fn from_spec(v: Variant) -> u8 {
        v@ as u8
    }
}

impl Variant {
    #[verifier::type_invariant]
    spec fn in_table(self) -> bool {
        self.index < 34
    }

    /// The variant of the number `index`, where there is one.
    pub fn new(index: u8) -> (r: Option<Variant>)
        ensures
            match r {
                Some(v) => index < 34 && v@ == index,
                None => index >= 34,
            },
    {
        if index < 34 {
            Some(Variant { index })
        } else {
            None
        }
    }

    /// The number of the variant.
    pub fn variant(&self) -> (r: u8)
        ensures
            r == self@,
            r < 34,
    {
        proof {
            use_type_invariant(self);
        }
        self.index
    }

    /// The data columns of the variant.
    pub fn cols(&self) -> (r: u8)
        ensures
            r == variant_cols(self@),
            1 <= r <= 4,
    {
        proof {
            use_type_invariant(self);
            lemma_variant_bounds(self@);
        }
        M_PDF417_VARIANTS[self.index as usize] as u8
    }

    /// The rows of the variant.
    pub fn rows(&self) -> (r: u8)
        ensures
            r == variant_rows(self@),
            4 <= r <= 44,
    {
        proof {
            use_type_invariant(self);
            lemma_variant_bounds(self@);
        }
        M_PDF417_VARIANTS[34 + self.index as usize] as u8
    }

    /// The correction codewords of the variant.
    pub fn ecc_count(&self) -> (r: usize)
        ensures
            r == variant_ecc_count(self@),
            7 <= r <= 50,
    {
        proof {
            use_type_invariant(self);
            lemma_variant_bounds(self@);
        }
        M_PDF417_VARIANTS[68 + self.index as usize] as usize
    }

    /// The offset of the factors of the variant in the combined factor
    /// table.
    pub fn ecc_offset(&self) -> (r: usize)
        ensures
            r == variant_ecc_offset(self@),
            r + variant_ecc_count(self@) <= 344,
    {
        proof {
            use_type_invariant(self);
            lemma_variant_bounds(self@);
        }
        M_PDF417_VARIANTS[102 + self.index as usize] as usize
    }

    /// The codewords of the variant, correction codewords included.
    pub fn size(&self) -> (r: usize)
        ensures
            r == variant_size(self@),
            11 <= r <= 176,
    {
        proof {
            use_type_invariant(self);
            lemma_variant_bounds(self@);
        }
        let rows = self.rows() as usize;
        let cols = self.cols() as usize;
        assert(rows * cols <= 176) by (nonlinear_arith)
            requires
                rows * cols == variant_size(self@),
                variant_size(self@) <= 176,
        ;
        rows * cols
    }

    /// The data codewords that the variant holds.
    pub fn capacity(&self) -> (r: usize)
        ensures
            r == variant_capacity(self@),
            4 <= r <= 126,
    {
        proof {
            use_type_invariant(self);
            lemma_variant_bounds(self@);
        }
        self.size() - self.ecc_count()
    }

    /// The variant to take for `n` data codewords: of those that hold
    /// them, the one of the smallest capacity, and of several of that
    /// capacity the first. There is none for more than 126 codewords.
    pub fn with_capacity(n: usize) -> (r: Option<Variant>)
        ensures
            match r {
                Some(v) => is_best_fit(v@, n as int),
                None => forall|w: int| 0 <= w < 34 ==> n > #[trigger] variant_capacity(w),
            },
            r is Some <==> n <= 126,
    {
        let mut best: Option<Variant> = None;
        let mut i: u8 = 0;
        while i < 34
            invariant
                i <= 34,
                match best {
                    Some(v) => {
                        &&& 0 <= v@ < i
                        &&& n <= variant_capacity(v@)
                        &&& forall|w: int|
                            0 <= w < i && n <= #[trigger] variant_capacity(w) ==> variant_capacity(
                                v@,
                            ) < variant_capacity(w) || (variant_capacity(v@) == variant_capacity(w)
                                && v@ <= w)
                    },
                    None => forall|w: int| 0 <= w < i ==> n > #[trigger] variant_capacity(w),
                },
            decreases 34 - i,
        {
            let candidate = Variant { index: i };
            let room = candidate.capacity();
            if room >= n {
                let take = match best {
                    Some(v) => room < v.capacity(),
                    None => true,
                };
                if take {
                    best = Some(candidate);
                }
            }
            i = i + 1;
        }
        proof {
            assert(variant_capacity(33) == 126) by {
                assert(variant_rows(33) * variant_cols(33) == 176) by (nonlinear_arith)
                    requires
                        variant_rows(33) == 44,
                        variant_cols(33) == 4,
                ;
            }
            if n > 126 {
                if let Some(v) = best {
                    lemma_variant_bounds(v@);
                }
            }
        }
        best
    }
}

/// The number of correction codewords of the variant of the number
/// `variant`, and the offset of their factors in the combined factor
/// table.
pub fn micro_ecc_params(variant: u8) -> (r: (usize, usize))
    requires
        variant < 34,
    ensures
        r.0 == variant_ecc_count(variant as int),
        r.1 == variant_ecc_offset(variant as int),
        7 <= r.0 <= 50,
        r.0 + r.1 <= 344,
{
    proof {
        lemma_variant_bounds(variant as int);
    }
    (
        M_PDF417_VARIANTS[68 + variant as usize] as usize,
        M_PDF417_VARIANTS[102 + variant as usize] as usize,
    )
}

/// The variant of `rows` rows and `cols` data columns, where there is one.
pub fn get_variant(rows: u8, cols: u8) -> (r: Option<Variant>)
    ensures
        match r {
            Some(v) => 0 <= v@ < 34 && variant_rows(v@) == rows && variant_cols(v@) == cols,
            None => forall|w: int|
                0 <= w < 34 ==> !(#[trigger] variant_rows(w) == rows && variant_cols(w) == cols),
        },
{
    let mut i: u8 = 0;
    while i < 34
        invariant
            i <= 34,
            forall|w: int|
                0 <= w < i ==> !(#[trigger] variant_rows(w) == rows && variant_cols(w) == cols),
        decreases 34 - i,
    {
        let candidate = Variant { index: i };
        if candidate.rows() == rows && candidate.cols() == cols {
            return Some(candidate);
        }
        i = i + 1;
    }
    None
}

/// The value that holds the 17 modules of `codeword` in the cluster
/// `cluster`: the 16 bits of the table behind a bar of one module.
pub open spec fn symbol_value(table: Seq<u16>, cluster: int, codeword: int) -> u32 {
    (0x1_0000 + table[cluster * 929 + codeword]) as u32
}

/// The bar-space patterns of the three clusters, as the symbology lays
/// them down: 929 entries for each cluster, an entry holding the last 16
/// of the 17 modules of a codeword, of which the first is always a bar.
///
/// The values are data of the standard; the caller provides them.
#[derive(Debug)]
pub struct ClusterTable {
    patterns: Vec<u16>,
}

impl View for ClusterTable {
    type V = Seq<u16>;

    closed spec fn view(&self) -> Seq<u16> {
        self.patterns@
    }
}

impl ClusterTable {
    #[verifier::type_invariant]
    spec fn complete(self) -> bool {
        self.patterns@.len() == 2787
    }

    /// Takes the table over where it has its 2787 entries.
    pub fn new(patterns: Vec<u16>) -> (r: Option<ClusterTable>)
        ensures
            match r {
                Some(table) => patterns@.len() == 2787 && table@ == patterns@,
                None => patterns@.len() != 2787,
            },
    {
        if patterns.len() == CLUSTER_TABLE_LEN {
            Some(ClusterTable { patterns })
        } else {
            None
        }
    }

    /// The value that holds the 17 modules of `codeword` in the cluster
    /// `cluster`.
    pub fn lookup(&self, cluster: u8, codeword: u16) -> (r: u32)
        requires
            cluster < 3,
            codeword < 929,
        ensures
            r == symbol_value(self@, cluster as int, codeword as int),
            0x1_0000 <= r < 0x2_0000,
    {
        proof {
            use_type_invariant(self);
        }
        0x1_0000 + self.patterns[cluster as usize * CLUSTER_SIZE + codeword as usize] as u32
    }
}

/// Tells whether three tables are what MicroPDF417 needs. `rap` holds four
/// rows of 34 entries: for each variant the numbers, from 1 to 52, of the
/// row address patterns that its first row shows on the left, in the
/// centre and on the right, and the cluster, from 0 to 2, of its first
/// row; the centre counts for the variants of three and four columns
/// alone. `side` and `center` hold the 52 row address patterns of the
/// sides and of the centre, ten modules each.
pub open spec fn micro_tables_valid(rap: Seq<u8>, side: Seq<u16>, center: Seq<u16>) -> bool {
    &&& rap.len() == 136
    &&& side.len() == 52
    &&& center.len() == 52
    &&& forall|v: int| 0 <= v < 34 ==> 1 <= #[trigger] rap[v] <= 52
    &&& forall|v: int| 34 <= v < 68 && variant_cols(v - 34) >= 3 ==> 1 <= #[trigger] rap[v] <= 52
    &&& forall|v: int| 68 <= v < 102 ==> 1 <= #[trigger] rap[v] <= 52
    &&& forall|v: int| 102 <= v < 136 ==> #[trigger] rap[v] < 3
    &&& forall|i: int| 0 <= i < 52 ==> #[trigger] side[i] < 1024
    &&& forall|i: int| 0 <= i < 52 ==> #[trigger] center[i] < 1024
}

/// The row address patterns of MicroPDF417 and the place at which each
/// variant starts among them.
///
/// The values are data of the standard; the caller provides them.
#[derive(Debug)]
pub struct MicroTables {
    rap: Vec<u8>,
    side: Vec<u16>,
    center: Vec<u16>,
}

impl MicroTables {
    #[verifier::type_invariant]
    spec fn valid(self) -> bool {
        micro_tables_valid(self.rap@, self.side@, self.center@)
    }

    /// The start of each variant among the row address patterns.
    pub closed spec fn rap(self) -> Seq<u8> {
        self.rap@
    }

    /// The row address patterns of the sides.
    pub closed spec fn side(self) -> Seq<u16> {
        self.side@
    }

    /// The row address patterns of the centre.
    pub closed spec fn center(self) -> Seq<u16> {
        self.center@
    }

    /// Takes the tables over where they are what MicroPDF417 needs.
    pub fn new(rap: Vec<u8>, side: Vec<u16>, center: Vec<u16>) -> (r: Option<MicroTables>)
        ensures
            match r {
                Some(tables) => {
                    &&& micro_tables_valid(rap@, side@, center@)
                    &&& tables.rap() == rap@
                    &&& tables.side() == side@
                    &&& tables.center() == center@
                },
                None => !micro_tables_valid(rap@, side@, center@),
            },
    {
        if rap.len() != 136 || side.len() != RAP_COUNT || center.len() != RAP_COUNT {
            return None;
        }
        let mut v: usize = 0;
        while v < 34
            invariant
                v <= 34,
                rap@.len() == 136,
                forall|w: int| 0 <= w < v ==> 1 <= #[trigger] rap@[w] <= 52,
                forall|w: int|
                    34 <= w < 34 + v && variant_cols(w - 34) >= 3 ==> 1 <= #[trigger] rap@[w]
                        <= 52,
                forall|w: int| 68 <= w < 68 + v ==> 1 <= #[trigger] rap@[w] <= 52,
                forall|w: int| 102 <= w < 102 + v ==> #[trigger] rap@[w] < 3,
            decreases 34 - v,
        {
            let left = rap[v];
            let middle = rap[34 + v];
            let right = rap[68 + v];
            let cluster = rap[102 + v];
            let three = M_PDF417_VARIANTS[v] >= 3;
            if left < 1 || left > 52 || right < 1 || right > 52 || cluster >= 3 || (three && (middle
                < 1 || middle > 52)) {
                return None;
            }
            v = v + 1;
        }
        let mut i: usize = 0;
        while i < 52
            invariant
                i <= 52,
                side@.len() == 52,
                center@.len() == 52,
                forall|j: int| 0 <= j < i ==> #[trigger] side@[j] < 1024,
                forall|j: int| 0 <= j < i ==> #[trigger] center@[j] < 1024,
            decreases 52 - i,
        {
            if side[i] >= 1024 || center[i] >= 1024 {
                return None;
            }
            i = i + 1;
        }
        Some(MicroTables { rap, side, center })
    }

    /// The places at which the rows of the variant `variant` start: the
    /// indices of the row address patterns of its first row on the left,
    /// in the centre and on the right, and the cluster of its first row.
    /// The centre is 0 for a variant of one or two columns, which has none.
    pub fn starts(&self, variant: u8) -> (r: (u8, u8, u8, u8))
        requires
            variant < 34,
        ensures
            r == micro_starts(self.rap(), variant as int),
            r.0 < 52,
            r.1 < 52,
            r.2 < 52,
            r.3 < 3,
    {
        proof {
            use_type_invariant(self);
        }
        let v = variant as usize;
        let middle = self.rap[34 + v];
        (
            self.rap[v] - 1,
            if middle >= 1 && middle <= 52 {
                middle - 1
            } else {
                0
            },
            self.rap[68 + v] - 1,
            self.rap[102 + v],
        )
    }

    /// The row address pattern of index `index` of the sides.
    pub fn side_pattern(&self, index: u8) -> (r: u16)
        requires
            index < 52,
        ensures
            r == self.side()[index as int],
            r < 1024,
    {
        proof {
            use_type_invariant(self);
        }
        self.side[index as usize]
    }

    /// The row address pattern of index `index` of the centre.
    pub fn center_pattern(&self, index: u8) -> (r: u16)
        requires
            index < 52,
        ensures
            r == self.center()[index as int],
            r < 1024,
    {
        proof {
            use_type_invariant(self);
        }
        self.center[index as usize]
    }
}

/// The places at which the rows of the variant `variant` start, read from
/// the table `rap`: the indices of the row address patterns of its first
/// row on the left, in the centre and on the right, and the cluster of
/// its first row.
pub open spec fn micro_starts(rap: Seq<u8>, variant: int) -> (u8, u8, u8, u8) {
    (
        (rap[variant] - 1) as u8,
        if 1 <= rap[34 + variant] <= 52 {
            (rap[34 + variant] - 1) as u8
        } else {
            0u8
        },
        (rap[68 + variant] - 1) as u8,
        rap[102 + variant],
    )
}

} // verus!
