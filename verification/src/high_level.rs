//! The encoder: data segments written one after the other into a buffer
//! of codewords, which is then sealed with padding and correction
//! codewords.

use crate::bytes::{
    byte_codewords, byte_end_mode, compact_bytes, is_text_mode, lemma_byte_codewords_bounded,
};
use crate::ecc::{
    all_codewords, ecc_count, ecc_count_spec, factors, generate_ecc, generate_micro_ecc,
    lemma_with_ecc_bounded, with_ecc,
};
use crate::numeric::{
    decimal_len, lemma_base900_shape, number_codewords, pow10, splice, write_number,
};
use crate::tables::{
    is_best_fit, lemma_variant_factors, micro_ecc_params, variant_capacity, variant_ecc_count,
    Variant,
};
use crate::text::{compact_text, lemma_text_codewords_bounded, text_codewords, text_end_mode};
pub use crate::text::{
    EncodingMode, CW_PADDING, ECI_CODE_PAGE, ECI_CUSTOM_ID, ECI_GENERAL_ID, M_LATCH_BYTE,
    M_LATCH_BYTE_M6, M_LATCH_NUMERIC, M_LATCH_TEXT, M_SHIFT_BYTE,
};
use vstd::arithmetic::power2::{lemma2_to64, lemma_pow2_strictly_increases};
use vstd::prelude::*;
use vstd::string::StringSliceAdditionalSpecFns;

verus! {

/// What an encoder holds: the buffer, the number of its slots that are
/// written, whether the symbol is a MicroPDF417, and the compaction mode
/// that the last segment has left.
pub struct EncoderState {
    pub codewords: Seq<u16>,
    pub used: nat,
    pub micro: bool,
    pub mode: EncodingMode,
}

impl EncoderState {
    /// The state after the codewords `segment` have been written behind
    /// the ones that are there, leaving the mode `mode`.
    pub open spec fn appended(self, segment: Seq<u16>, mode: EncodingMode) -> EncoderState {
        EncoderState {
            codewords: splice(self.codewords, self.used as int, segment),
            used: self.used + segment.len(),
            micro: self.micro,
            mode,
        }
    }

    /// The slots that are written, without slot 0 of a regular symbol,
    /// which waits for the number of the data codewords.
    pub open spec fn data(self) -> Seq<u16> {
        self.codewords.subrange(
            if self.micro {
                0
            } else {
                1
            },
            self.used as int,
        )
    }
}

/// The codewords of a numeric segment: the latch 902, unless the mode is
/// numeric already, and the numeric block of the number.
pub open spec fn num_segment(mode: EncodingMode, n: u64) -> Seq<u16> {
    if mode == EncodingMode::Numeric {
        number_codewords(n)
    } else {
        seq![902u16] + number_codewords(n)
    }
}

/// The mode in which a text segment starts: the sub-mode that the last
/// text segment has left, and the upper-case sub-mode after a numeric or
/// byte segment.
pub open spec fn text_start_mode(mode: EncodingMode) -> EncodingMode {
    if is_text_mode(mode) {
        mode
    } else {
        EncodingMode::Upper
    }
}

/// The codewords of a text segment: the latch 900 after a numeric or byte
/// segment, and the text compaction of the bytes.
pub open spec fn ascii_segment(mode: EncodingMode, bytes: Seq<u8>) -> Seq<u16> {
    if is_text_mode(mode) {
        text_codewords(bytes, mode)
    } else {
        seq![900u16] + text_codewords(bytes, EncodingMode::Upper)
    }
}

/// The codewords of a UTF-8 segment: 927 and 26, which announce the code
/// page of UTF-8, and the bytes as a byte segment.
pub open spec fn utf8_segment(mode: EncodingMode, bytes: Seq<u8>) -> Seq<u16> {
    seq![927u16, 26u16] + byte_codewords(bytes, mode)
}

/// The buffer `codewords` with the slots from `used` up to `total` set to
/// the padding codeword 900.
pub open spec fn padded(codewords: Seq<u16>, used: int, total: int) -> Seq<u16> {
    Seq::new(
        codewords.len(),
        |i: int|
            if used <= i < total {
                900u16
            } else {
                codewords[i]
            },
    )
}

/// The sealed buffer of a regular symbol: the number of data codewords in
/// slot 0, padding up to the correction codewords, and the correction
/// codewords of the level in the last slots.
pub open spec fn sealed(codewords: Seq<u16>, used: int, level: u8) -> Seq<u16> {
    let total = codewords.len() - ecc_count_spec(level);
    with_ecc(
        padded(codewords.update(0, total as u16), used, total),
        factors(ecc_count_spec(level)),
    )
}

/// The sealed buffer of a MicroPDF417 symbol: padding up to the correction
/// codewords, and the correction codewords of the variant in the last
/// slots.
pub open spec fn sealed_micro(codewords: Seq<u16>, used: int, variant: int) -> Seq<u16> {
    let total = codewords.len() - variant_ecc_count(variant);
    with_ecc(padded(codewords, used, total), factors(variant_ecc_count(variant) as nat))
}

/// Tells whether `level` is the highest correction level whose codewords
/// find room in `remaining` slots.
pub open spec fn is_level_fit(level: u8, remaining: int) -> bool {
    &&& level <= 8
    &&& ecc_count_spec(level) <= remaining
    &&& level < 8 ==> ecc_count_spec((level + 1) as u8) > remaining
}

/// Sets the slots of `out` from `from` up to `to` to the padding codeword.
pub fn fill_padding(out: &mut [u16], from: usize, to: usize)
    requires
        to <= old(out)@.len(),
    ensures
        final(out)@ == padded(old(out)@, from as int, to as int),
{
    let ghost before = out@;
    let mut i: usize = from;
    while i < to
        invariant
            to <= out@.len(),
            out@.len() == before.len(),
            from <= i,
            i <= to || i == from,
            forall|m: int| from <= m < i && m < to ==> out@[m] == 900,
            forall|m: int| 0 <= m < out@.len() && !(from <= m < i) ==> out@[m] == before[m],
        decreases to - i,
    {
        out[i] = CW_PADDING;
        i = i + 1;
    }
    assert(out@ =~= padded(before, from as int, to as int));
}

/// An encoder of data segments into a buffer of codewords that the caller
/// provides.
///
/// The encoder borrows the buffer and hands the borrow on from method to
/// method: every method that takes the encoder returns it, or the buffer
/// itself, over the same borrow. What the caller finds in the buffer in
/// the end is what the last of them has left there.
#[derive(Debug)]
pub struct PDF417Encoder<'a> {
    storage: &'a mut [u16],
    used: usize,
    micro: bool,
    last_mode: EncodingMode,
}

impl<'a> View for PDF417Encoder<'a> {
    type V = EncoderState;

    closed spec fn view(&self) -> EncoderState {
        EncoderState {
            codewords: self.storage@,
            used: self.used as nat,
            micro: self.micro,
            mode: self.last_mode,
        }
    }
}

impl<'a> PDF417Encoder<'a> {
    /// The borrow of the buffer that the encoder writes to.
    pub closed spec fn buffer(self) -> &'a mut [u16] {
        self.storage
    }

    /// What holds of every encoder: the written slots lie within the
    /// buffer, and slot 0 of a regular symbol is among them.
    pub open spec fn wf(&self) -> bool {
        &&& self@.used <= self@.codewords.len()
        &&& !self@.micro ==> self@.used >= 1
    }

    /// Creates an encoder that writes to `storage`. A regular symbol keeps
    /// slot 0 for the number of its data codewords and starts in the
    /// upper-case sub-mode of text compaction; a MicroPDF417 symbol starts
    /// at slot 0 in byte compaction.
    pub fn new(storage: &'a mut [u16], micro: bool) -> (r: Self)
        requires
            old(storage)@.len() > 0,
        ensures
            r.wf(),
            r@.codewords == old(storage)@,
            r@.used == (if micro {
                0nat
            } else {
                1nat
            }),
            r@.micro == micro,
            r@.mode == (if micro {
                EncodingMode::Byte
            } else {
                EncodingMode::Upper
            }),
            final(r.buffer())@ == final(storage)@,
    {
        if micro {
            PDF417Encoder { storage, used: 0, micro, last_mode: EncodingMode::Byte }
        } else {
            PDF417Encoder { storage, used: 1, micro, last_mode: EncodingMode::Upper }
        }
    }

    /// Returns the number of slots that are written.
    pub fn count(&self) -> (r: usize)
        ensures
            r == self@.used,
    {
        self.used
    }

    /// Returns the number of slots of the buffer.
    pub fn capacity(&self) -> (r: usize)
        ensures
            r == self@.codewords.len(),
    {
        self.storage.len()
    }

    /// Returns the compaction mode that the last segment has left.
    pub fn mode(&self) -> (r: EncodingMode)
        ensures
            r == self@.mode,
    {
        self.last_mode
    }

    /// Returns the number of slots that are free once the correction
    /// codewords have their room. `val` is the correction level of a
    /// regular symbol, and the number of the variant of a MicroPDF417
    /// symbol.
    pub fn available(&self, val: u8) -> (r: usize)
        requires
            self.wf(),
            self@.micro ==> val < 34 && self@.used + variant_ecc_count(val as int)
                <= self@.codewords.len(),
            !self@.micro ==> val <= 8 && self@.used + ecc_count_spec(val) <= self@.codewords.len(),
        ensures
            self@.micro ==> r == self@.codewords.len() - variant_ecc_count(val as int)
                - self@.used,
            !self@.micro ==> r == self@.codewords.len() - ecc_count_spec(val) - self@.used,
    {
        let count = if self.micro {
            micro_ecc_params(val).0
        } else {
            ecc_count(val)
        };
        self.storage.len() - count - self.used
    }

    /// Appends a numeric segment that holds the number `n`.
    pub fn append_num(self, n: u64) -> (r: Self)
        requires
            self.wf(),
            self@.used + num_segment(self@.mode, n).len() <= self@.codewords.len(),
        ensures
            r.wf(),
            r@ == self@.appended(num_segment(self@.mode, n), EncodingMode::Numeric),
            final(r.buffer())@ == final(self.buffer())@,
    {
        let mut e = self;
        let ghost before = e.storage@;
        let ghost at = e.used as int;
        let latch = match e.last_mode {
            EncodingMode::Numeric => false,
            _ => true,
        };
        if latch {
            e.storage[e.used] = M_LATCH_NUMERIC;
            e.used = e.used + 1;
        }
        let cap = e.storage.len();
        let len = write_number(e.storage, e.used, n);
        assert(e.used + len <= cap);
        e.used = e.used + len;
        e.last_mode = EncodingMode::Numeric;
        proof {
            assert(e.storage@ =~= splice(before, at, num_segment(self@.mode, n)));
        }
        e
    }

    /// Appends a byte segment.
    pub fn append_bytes(self, bytes: &[u8]) -> (r: Self)
        requires
            self.wf(),
            self@.used + byte_codewords(bytes@, self@.mode).len() <= self@.codewords.len(),
        ensures
            r.wf(),
            r@ == self@.appended(
                byte_codewords(bytes@, self@.mode),
                byte_end_mode(bytes@, self@.mode),
            ),
            final(r.buffer())@ == final(self.buffer())@,
    {
        let mut e = self;
        let end = compact_bytes(e.storage, e.used, e.last_mode, bytes);
        e.used = end.0;
        e.last_mode = end.1;
        e
    }

    /// Appends a text segment. Text compaction knows the upper-case and
    /// lower-case letters, the digits, the space and some forty symbols;
    /// any other byte takes two codewords.
    pub fn append_ascii(self, s: &str) -> (r: Self)
        requires
            self.wf(),
            self@.used + ascii_segment(self@.mode, s.spec_bytes()).len() <= self@.codewords.len(),
        ensures
            r.wf(),
            r@ == self@.appended(
                ascii_segment(self@.mode, s.spec_bytes()),
                text_end_mode(s.spec_bytes(), 0, text_start_mode(self@.mode)),
            ),
            final(r.buffer())@ == final(self.buffer())@,
    {
        let mut e = self;
        let ghost before = e.storage@;
        let ghost at = e.used as int;
        let bytes = s.as_bytes();
        let mut mode = e.last_mode;
        let latch = match mode {
            EncodingMode::Numeric => true,
            EncodingMode::Byte => true,
            _ => false,
        };
        if latch {
            e.storage[e.used] = M_LATCH_TEXT;
            e.used = e.used + 1;
            mode = EncodingMode::Upper;
        }
        let end = compact_text(e.storage, e.used, mode, bytes);
        e.used = end.0;
        e.last_mode = end.1;
        proof {
            assert(e.storage@ =~= splice(before, at, ascii_segment(self@.mode, s.spec_bytes())));
        }
        e
    }

    /// Appends a segment that holds a UTF-8 string: the identifier of the
    /// code page of UTF-8, and the bytes of the string as a byte segment.
    pub fn append_utf8(self, s: &str) -> (r: Self)
        requires
            self.wf(),
            self@.used + utf8_segment(self@.mode, s.spec_bytes()).len() <= self@.codewords.len(),
        ensures
            r.wf(),
            r@ == self@.appended(
                utf8_segment(self@.mode, s.spec_bytes()),
                byte_end_mode(s.spec_bytes(), self@.mode),
            ),
            final(r.buffer())@ == final(self.buffer())@,
    {
        let mut e = self;
        let ghost before = e.storage@;
        let ghost at = e.used as int;
        e.storage[e.used] = ECI_CODE_PAGE;
        e.storage[e.used + 1] = 26;
        e.used = e.used + 2;
        let end = compact_bytes(e.storage, e.used, e.last_mode, s.as_bytes());
        e.used = end.0;
        e.last_mode = end.1;
        proof {
            assert(e.storage@ =~= splice(before, at, utf8_segment(self@.mode, s.spec_bytes())));
        }
        e
    }

    /// Appends a single codeword.
    pub fn append_codeword(self, codeword: u16) -> (r: Self)
        requires
            self.wf(),
            self@.used < self@.codewords.len(),
        ensures
            r.wf(),
            r@ == self@.appended(seq![codeword], self@.mode),
            final(r.buffer())@ == final(self.buffer())@,
    {
        let mut e = self;
        let ghost before = e.storage@;
        e.storage[e.used] = codeword;
        e.used = e.used + 1;
        proof {
            assert(e.storage@ =~= splice(before, self@.used as int, seq![codeword]));
        }
        e
    }

    /// Appends codewords as they are.
    pub fn append_raw(self, codewords: &[u16]) -> (r: Self)
        requires
            self.wf(),
            self@.used + codewords@.len() <= self@.codewords.len(),
        ensures
            r.wf(),
            r@ == self@.appended(codewords@, self@.mode),
            final(r.buffer())@ == final(self.buffer())@,
    {
        let mut e = self;
        let ghost before = e.storage@;
        let at = e.used;
        let n = codewords.len();
        let cap = e.storage.len();
        let mut i: usize = 0;
        while i < n
            invariant
                i <= n,
                n == codewords@.len(),
                at + n <= cap,
                cap == e.storage@.len(),
                e.used == at,
                e.micro == self@.micro,
                e.last_mode == self@.mode,
                final(e.buffer())@ == final(self.buffer())@,
                e.storage@ == splice(before, at as int, codewords@.subrange(0, i as int)),
            decreases n - i,
        {
            e.storage[at + i] = codewords[i];
            i = i + 1;
            proof {
                assert(e.storage@ =~= splice(before, at as int, codewords@.subrange(0, i as int)));
            }
        }
        proof {
            assert(codewords@.subrange(0, n as int) =~= codewords@);
        }
        e.used = at + n;
        e
    }

    /// Tells whether the buffer can be sealed with `val`: the correction
    /// codewords find room behind the written slots, and the number of
    /// data codewords of a regular symbol fits the 16 bits of slot 0.
    /// `val` is the correction level of a regular symbol, and the number
    /// of the variant of a MicroPDF417 symbol.
    pub open spec fn can_seal(&self, val: u8) -> bool {
        if self@.micro {
            &&& val < 34
            &&& self@.used + variant_ecc_count(val as int) <= self@.codewords.len()
        } else {
            &&& val <= 8
            &&& self@.used + ecc_count_spec(val) <= self@.codewords.len()
            &&& self@.codewords.len() - ecc_count_spec(val) <= 0xFFFF
        }
    }

    /// The buffer as `seal` leaves it.
    pub open spec fn sealed_with(&self, val: u8) -> Seq<u16> {
        if self@.micro {
            sealed_micro(self@.codewords, self@.used as int, val as int)
        } else {
            sealed(self@.codewords, self@.used as int, val)
        }
    }

    /// Tells whether `val` is what `fit_ecc` finds: the highest correction
    /// level whose codewords find room behind the written slots of a
    /// regular symbol, and the variant to take for the written slots of a
    /// MicroPDF417 symbol.
    pub open spec fn fits(&self, val: u8) -> bool {
        if self@.micro {
            is_best_fit(val as int, self@.used as int)
        } else {
            is_level_fit(val, self@.codewords.len() - self@.used)
        }
    }

    /// Seals the buffer and hands it back: the free slots before the
    /// correction codewords are padded, and the correction codewords are
    /// calculated over all that precedes them. A regular symbol gets the
    /// number of its data codewords, padding included, into slot 0. `val`
    /// is the correction level of a regular symbol, and the number of the
    /// variant of a MicroPDF417 symbol.
    pub fn seal(self, val: u8) -> (r: &'a mut [u16])
        requires
            self.wf(),
            self.can_seal(val),
        ensures
            r@ == self.sealed_with(val),
            final(r)@ == final(self.buffer())@,
    {
        let e = self;
        let cap = e.storage.len();
        if e.micro {
            let (count, offset) = micro_ecc_params(val);
            let total = cap - count;
            fill_padding(e.storage, e.used, total);
            proof {
                lemma_variant_factors(val as int);
            }
            generate_micro_ecc(e.storage, count, offset);
        } else {
            let count = ecc_count(val);
            let total = cap - count;
            e.storage[0] = total as u16;
            fill_padding(e.storage, e.used, total);
            generate_ecc(e.storage, val);
        }
        e.storage
    }

    /// Finds the correction to seal with: for a regular symbol the highest
    /// level whose codewords find room behind the written slots, and for
    /// a MicroPDF417 symbol the number of the variant to take for the
    /// written slots. There is none where fewer than two slots are free,
    /// or more than 126 written.
    pub fn fit_ecc(&self) -> (r: Option<u8>)
        requires
            self.wf(),
        ensures
            match r {
                Some(val) => self.fits(val),
                None => forall|val: u8| !self.fits(val),
            },
    {
        if self.micro {
            match Variant::with_capacity(self.used) {
                Some(v) => Some(v.variant()),
                None => {
                    proof {
                        assert forall|val: u8| !self.fits(val) by {
                            if val < 34 {
                                assert(self@.used > variant_capacity(val as int));
                            }
                        }
                    }
                    None
                },
            }
        } else {
            let remaining = self.storage.len() - self.used;
            let mut level: u8 = 9;
            proof {
                lemma2_to64();
            }
            while level > 0 && ecc_count(level - 1) > remaining
                invariant
                    level <= 9,
                    level < 9 ==> ecc_count_spec(level) > remaining,
                decreases level,
            {
                level = level - 1;
            }
            if level == 0 {
                proof {
                    assert forall|val: u8| !self.fits(val) by {
                        if val <= 8 {
                            lemma_ecc_count_increases(0, val);
                        }
                    }
                }
                None
            } else {
                Some(level - 1)
            }
        }
    }

    /// Seals the buffer with what `fit_ecc` finds, and hands back what was
    /// found together with the buffer. Where nothing is found, or the
    /// buffer cannot be sealed with it, the buffer stays as it is.
    pub fn fit_seal(self) -> (r: Option<(u8, &'a mut [u16])>)
        requires
            self.wf(),
        ensures
            match r {
                Some((val, sealed)) => {
                    &&& self.fits(val)
                    &&& self.can_seal(val)
                    &&& sealed@ == self.sealed_with(val)
                    &&& final(sealed)@ == final(self.buffer())@
                },
                None => {
                    &&& forall|val: u8| self.fits(val) ==> !self.can_seal(val)
                    &&& final(self.buffer())@ == self@.codewords
                },
            },
    {
        let found = self.fit_ecc();
        match found {
            Some(val) => {
                let cap = self.storage.len();
                let fine = if self.micro {
                    micro_ecc_params(val).0 <= cap - self.used
                } else {
                    cap - ecc_count(val) <= 0xFFFF
                };
                if fine {
                    Some((val, self.seal(val)))
                } else {
                    proof {
                        assert forall|other: u8| self.fits(other) implies !self.can_seal(
                            other,
                        ) by {
                            self.lemma_fit_unique(val, other);
                        }
                    }
                    None
                }
            },
            None => None,
        }
    }

    /// At most one value is what `fit_ecc` finds.
    pub proof fn lemma_fit_unique(&self, a: u8, b: u8)
        requires
            self.fits(a),
            self.fits(b),
        ensures
            a == b,
    {
        if !self@.micro {
            if a < b {
                lemma_ecc_count_increases((a + 1) as u8, b);
            } else if b < a {
                lemma_ecc_count_increases((b + 1) as u8, a);
            }
        }
    }
}

/// A higher correction level has no fewer correction codewords.
pub proof fn lemma_ecc_count_increases(a: u8, b: u8)
    requires
        a <= b,
    ensures
        ecc_count_spec(a) <= ecc_count_spec(b),
{
    if a < b {
        lemma_pow2_strictly_increases((a + 1) as nat, (b + 1) as nat);
    }
}

/// The segments that the encoder compacts hold codewords.
pub proof fn lemma_segments_bounded(mode: EncodingMode, n: u64, bytes: Seq<u8>)
    ensures
        all_codewords(num_segment(mode, n)),
        all_codewords(ascii_segment(mode, bytes)),
        all_codewords(utf8_segment(mode, bytes)),
        all_codewords(byte_codewords(bytes, mode)),
{
    lemma_base900_shape(
        pow10(decimal_len(n as nat)) + n as nat,
        decimal_len(n as nat) / 3 + 1,
    );
    lemma_text_codewords_bounded(bytes, mode);
    lemma_text_codewords_bounded(bytes, EncodingMode::Upper);
    lemma_byte_codewords_bounded(bytes, mode);
}

/// The room that a segment needs: a numeric segment up to eight slots, a
/// text segment up to two for every byte and one for the latch, a byte
/// segment a slot for the latch, five for every six bytes and one for
/// each byte left over, and a UTF-8 segment two more than that.
pub proof fn lemma_segment_lengths(mode: EncodingMode, n: u64, bytes: Seq<u8>)
    ensures
        decimal_len(n as nat) <= 20,
        num_segment(mode, n).len() == decimal_len(n as nat) / 3 + 1 + (if mode
            == EncodingMode::Numeric {
            0int
        } else {
            1int
        }),
        num_segment(mode, n).len() <= 8,
        ascii_segment(mode, bytes).len() <= 2 * bytes.len() + (if is_text_mode(mode) {
            0int
        } else {
            1int
        }),
        byte_codewords(bytes, mode).len() == 1 + (bytes.len() / 6) * 5 + bytes.len() % 6,
        byte_codewords(bytes, mode).len() <= bytes.len() + 1,
        utf8_segment(mode, bytes).len() == 3 + (bytes.len() / 6) * 5 + bytes.len() % 6,
{
    lemma_base900_shape(
        pow10(decimal_len(n as nat)) + n as nat,
        decimal_len(n as nat) / 3 + 1,
    );
    crate::numeric::lemma_decimal_len_bound(n as nat);
    crate::numeric::lemma_pow10_values();
    if decimal_len(n as nat) > 20 {
        crate::numeric::lemma_pow10_increases(20, (decimal_len(n as nat) - 1) as nat);
    }
    crate::text::lemma_text_codewords_len(bytes, mode);
    crate::text::lemma_text_codewords_len(bytes, EncodingMode::Upper);
    crate::bytes::lemma_byte_groups_len(bytes);
}

/// Codewords that are written behind codewords leave codewords in the
/// written slots.
pub proof fn lemma_appended_bounded(state: EncoderState, segment: Seq<u16>, mode: EncodingMode)
    requires
        state.used + segment.len() <= state.codewords.len(),
        !state.micro ==> state.used >= 1,
        all_codewords(state.data()),
        all_codewords(segment),
    ensures
        all_codewords(state.appended(segment, mode).data()),
{
    let after = state.appended(segment, mode);
    let first: int = if state.micro {
        0
    } else {
        1
    };
    assert forall|i: int| 0 <= i < after.data().len() implies #[trigger] after.data()[i]
        < 929 by {
        if first + i < state.used {
            assert(after.data()[i] == state.data()[i]);
        } else {
            assert(after.data()[i] == segment[first + i - state.used]);
        }
    }
}

/// A buffer whose written slots hold codewords holds codewords when it is
/// sealed, where a regular symbol has no more than 928 data codewords, of
/// which their number in slot 0 is one.
pub proof fn lemma_sealed_bounded(state: EncoderState, val: u8)
    requires
        all_codewords(state.data()),
        state.micro ==> val < 34 && state.used + variant_ecc_count(val as int)
            <= state.codewords.len(),
        !state.micro ==> val <= 8 && 1 <= state.used && state.used + ecc_count_spec(val)
            <= state.codewords.len() && state.codewords.len() - ecc_count_spec(val) <= 928,
    ensures
        state.micro ==> all_codewords(sealed_micro(state.codewords, state.used as int, val as int)),
        !state.micro ==> all_codewords(sealed(state.codewords, state.used as int, val)),
{
    let used = state.used as int;
    if state.micro {
        crate::tables::lemma_variant_bounds(val as int);
        let count = variant_ecc_count(val as int);
        let total = state.codewords.len() - count;
        let body = padded(state.codewords, used, total);
        let f = factors(count as nat);
        assert forall|i: int| 0 <= i < total implies #[trigger] body.subrange(0, total)[i]
            < 929 by {
            if i < used {
                assert(body[i] == state.data()[i]);
            }
        }
        lemma_with_ecc_bounded(body, f);
    } else {
        let count = ecc_count_spec(val) as int;
        let total = state.codewords.len() - count;
        let body = padded(state.codewords.update(0, total as u16), used, total);
        let f = factors(ecc_count_spec(val));
        assert forall|i: int| 0 <= i < total implies #[trigger] body.subrange(0, total)[i]
            < 929 by {
            if 1 <= i < used {
                assert(body[i] == state.data()[i - 1]);
            }
        }
        lemma_with_ecc_bounded(body, f);
    }
}

} // verus!
