//! Text compaction: the mode-switching encoder that turns bytes into
//! sub-codewords between 0 and 29, two to a storage slot, with numeric
//! blocks and single raw bytes in slots of their own.

use crate::ecc::all_codewords;
use crate::numeric::{
    digits_codewords, is_digit, lemma_base900_shape, splice, write_digits, MAX_DIGITS,
};
use vstd::prelude::*;

verus! {

/// Codeword that latches to text compaction; also the padding codeword.
pub const M_LATCH_TEXT: u16 = 900;

/// Codeword that latches to byte compaction.
pub const M_LATCH_BYTE: u16 = 901;

/// Codeword that latches to numeric compaction.
pub const M_LATCH_NUMERIC: u16 = 902;

/// Codeword that switches to byte compaction for the next codeword only;
/// it has a meaning in text compaction alone.
pub const M_SHIFT_BYTE: u16 = 913;

/// Codeword that latches to byte compaction where the number of bytes is a
/// multiple of six.
pub const M_LATCH_BYTE_M6: u16 = 924;

/// Codeword that announces a user-defined ECI identifier.
pub const ECI_CUSTOM_ID: u16 = 925;

/// Codeword that announces a general-purpose ECI identifier.
pub const ECI_GENERAL_ID: u16 = 926;

/// Codeword that announces an ECI code page.
pub const ECI_CODE_PAGE: u16 = 927;

/// Codeword that fills the data region up to the correction codewords.
pub const CW_PADDING: u16 = 900;

/// The characters of the mixed sub-mode, each at its value less ten:
/// `& \r \t , : # - . $ / + % * = ^`.
pub const MIXED_CHAR_SET: [u8; 15] = [38, 13, 9, 44, 58, 35, 45, 46, 36, 47, 43, 37, 42, 61, 94];

/// The characters of the punctuation sub-mode, each at its value:
/// `; < > @ [ \ ] _ \` ~ ! \r \t , : \n - . $ / " | * ( ) ? { } '`.
pub const PUNC_CHAR_SET: [u8; 29] = [
    59,
    60,
    62,
    64,
    91,
    92,
    93,
    95,
    96,
    126,
    33,
    13,
    9,
    44,
    58,
    10,
    45,
    46,
    36,
    47,
    34,
    124,
    42,
    40,
    41,
    63,
    123,
    125,
    39,
];

/// The compaction mode that the encoder is in.
#[derive(Clone, Copy, Debug, PartialEq, Eq, Structural)]
pub enum EncodingMode {
    Upper,
    Lower,
    Mixed,
    Punctuation,
    Numeric,
    Byte,
}

/// What text compaction emits: half a storage slot, holding a sub-codeword
/// between 0 and 29, or a whole slot.
#[derive(Clone, Copy, Debug, PartialEq, Eq, Structural)]
pub enum Unit {
    Half(u8),
    Whole(u16),
}

/// What one step of text compaction does: the units it emits, the index
/// of the first byte it has not consumed, and the mode it leaves.
pub struct Step {
    pub units: Seq<Unit>,
    pub next: int,
    pub mode: EncodingMode,
}

/// Tells whether a byte is an upper-case ASCII letter.
pub open spec fn is_upper(c: u8) -> bool {
    65 <= c <= 90
}

/// Tells whether a byte is a lower-case ASCII letter.
pub open spec fn is_lower(c: u8) -> bool {
    97 <= c <= 122
}

/// The index at which `c` first stands in `set`, or -1 where it does not.
pub open spec fn position(set: Seq<u8>, c: u8) -> int
    decreases set.len(),
{
    if set.len() == 0 {
        -1
    } else if set[0] == c {
        0
    } else {
        let p = position(set.skip(1), c);
        if p < 0 {
            -1
        } else {
            p + 1
        }
    }
}

/// Tells whether a byte belongs to the punctuation sub-mode.
pub open spec fn is_punct(c: u8) -> bool {
    position(PUNC_CHAR_SET@, c) >= 0
}

/// The number of ASCII digits that follow each other from index `k` on.
pub open spec fn digit_span(s: Seq<u8>, k: int) -> nat
    decreases s.len() - k,
{
    if 0 <= k < s.len() && is_digit(s[k]) {
        1 + digit_span(s, k + 1)
    } else {
        0
    }
}

/// The length of the numeric block that starts at `k`: the digits that
/// follow each other from there, 44 at most.
pub open spec fn block_len(s: Seq<u8>, k: int) -> nat {
    if digit_span(s, k) <= 44 {
        digit_span(s, k)
    } else {
        44
    }
}

/// Each of `vs` as half a slot.
pub open spec fn halves(vs: Seq<u8>) -> Seq<Unit> {
    Seq::new(vs.len(), |i: int| Unit::Half(vs[i]))
}

/// Each of `ws` as a whole slot.
pub open spec fn wholes(ws: Seq<u16>) -> Seq<Unit> {
    Seq::new(ws.len(), |i: int| Unit::Whole(ws[i]))
}

/// The values of a run of ASCII digits.
pub open spec fn digit_values(digits: Seq<u8>) -> Seq<u8> {
    Seq::new(digits.len(), |i: int| (digits[i] - 48) as u8)
}

/// The numeric blocks of the digits that follow each other from `k` on,
/// each block taking up to 44 of them.
pub open spec fn numeric_units(s: Seq<u8>, k: int) -> Seq<Unit>
    decreases s.len() - k,
{
    let d = block_len(s, k);
    if d == 0 || k + d > s.len() {
        Seq::empty()
    } else {
        wholes(digits_codewords(s.subrange(k, k + d))) + numeric_units(s, k + d)
    }
}

/// The step for an upper-case letter. From the lower-case sub-mode a
/// letter that a lower-case letter or a space follows is shifted in with
/// 27 and the sub-mode stays; any other is preceded by 29, 29 and the
/// sub-mode becomes upper-case. From the mixed sub-mode the latch is 28,
/// from punctuation 29.
pub open spec fn upper_step(s: Seq<u8>, k: int, mode: EncodingMode) -> Step {
    let shift = k + 1 < s.len() && (is_lower(s[k + 1]) || s[k + 1] == 32);
    let latch = match mode {
        EncodingMode::Lower => if shift {
            seq![Unit::Half(27)]
        } else {
            seq![Unit::Half(29), Unit::Half(29)]
        },
        EncodingMode::Mixed => seq![Unit::Half(28)],
        EncodingMode::Punctuation => seq![Unit::Half(29)],
        _ => Seq::empty(),
    };
    Step {
        units: latch.push(Unit::Half((s[k] - 65) as u8)),
        next: k + 1,
        mode: if mode == EncodingMode::Lower && shift {
            EncodingMode::Lower
        } else {
            EncodingMode::Upper
        },
    }
}

/// The step for a lower-case letter: the latch to the lower-case sub-mode
/// is 27, from punctuation 29 and 27.
pub open spec fn lower_step(s: Seq<u8>, k: int, mode: EncodingMode) -> Step {
    let latch = match mode {
        EncodingMode::Lower => Seq::empty(),
        EncodingMode::Punctuation => seq![Unit::Half(29), Unit::Half(27)],
        _ => seq![Unit::Half(27)],
    };
    Step {
        units: latch.push(Unit::Half((s[k] - 97) as u8)),
        next: k + 1,
        mode: EncodingMode::Lower,
    }
}

/// The step for a run of digits. A run of up to 13 digits goes through the
/// mixed sub-mode, a digit to half a slot. A longer run is latched into
/// numeric compaction with 902 and written as numeric blocks of up to 44
/// digits each, the last block however short; where a byte that is no
/// digit follows the run, 900 latches back to the upper-case sub-mode,
/// and where the input ends with the run, it ends in numeric compaction.
pub open spec fn digit_step(s: Seq<u8>, k: int, mode: EncodingMode) -> Step {
    let span = digit_span(s, k);
    if span <= 13 {
        let latch = match mode {
            EncodingMode::Mixed => Seq::empty(),
            EncodingMode::Punctuation => seq![Unit::Half(29), Unit::Half(28)],
            _ => seq![Unit::Half(28)],
        };
        Step {
            units: latch + halves(digit_values(s.subrange(k, k + span))),
            next: k + span,
            mode: EncodingMode::Mixed,
        }
    } else {
        let leave = if k + span < s.len() {
            seq![Unit::Whole(900)]
        } else {
            Seq::empty()
        };
        Step {
            units: seq![Unit::Whole(902)] + numeric_units(s, k) + leave,
            next: k + span,
            mode: if k + span < s.len() {
                EncodingMode::Upper
            } else {
                EncodingMode::Numeric
            },
        }
    }
}

/// The step for a space: 26, after the latch 29 to the upper-case sub-mode
/// where the sub-mode was punctuation.
pub open spec fn space_step(s: Seq<u8>, k: int, mode: EncodingMode) -> Step {
    if mode == EncodingMode::Punctuation {
        Step {
            units: seq![Unit::Half(29), Unit::Half(26)],
            next: k + 1,
            mode: EncodingMode::Upper,
        }
    } else {
        Step { units: seq![Unit::Half(26)], next: k + 1, mode }
    }
}

/// Tells whether the mixed character at position `p` of its set has the
/// value `p + 10` in the punctuation sub-mode too.
pub open spec fn shared_with_punct(p: int) -> bool {
    1 <= p <= 4 || 6 <= p <= 9
}

/// The step for the character at position `p` of the mixed set: its value
/// is `p + 10`. The latch to the mixed sub-mode is 28, from punctuation 29
/// and 28; the punctuation sub-mode stays for a character that it shares.
pub open spec fn mixed_step(s: Seq<u8>, k: int, mode: EncodingMode, p: int) -> Step {
    let stay = mode == EncodingMode::Punctuation && shared_with_punct(p);
    let latch = match mode {
        EncodingMode::Mixed => Seq::empty(),
        EncodingMode::Punctuation => if stay {
            Seq::empty()
        } else {
            seq![Unit::Half(29), Unit::Half(28)]
        },
        _ => seq![Unit::Half(28)],
    };
    Step {
        units: latch.push(Unit::Half((p + 10) as u8)),
        next: k + 1,
        mode: if stay {
            EncodingMode::Punctuation
        } else {
            EncodingMode::Mixed
        },
    }
}

/// Tells whether at least three punctuation characters follow each other
/// from index `k` on, of which the one at `k` is known to be the first.
pub open spec fn punct_latches(s: Seq<u8>, k: int) -> bool {
    k + 2 < s.len() && is_punct(s[k + 1]) && is_punct(s[k + 2])
}

/// The step for the character at position `p` of the punctuation set: its
/// value is `p`. Outside the punctuation sub-mode a run of three or more
/// latches into it with 25, after 28 where the sub-mode was not mixed; a
/// shorter run shifts each character in with 29.
pub open spec fn punct_step(s: Seq<u8>, k: int, mode: EncodingMode, p: int) -> Step {
    if mode == EncodingMode::Punctuation {
        Step { units: seq![Unit::Half(p as u8)], next: k + 1, mode }
    } else if punct_latches(s, k) {
        let latch = if mode == EncodingMode::Mixed {
            seq![Unit::Half(25)]
        } else {
            seq![Unit::Half(28), Unit::Half(25)]
        };
        Step {
            units: latch.push(Unit::Half(p as u8)),
            next: k + 1,
            mode: EncodingMode::Punctuation,
        }
    } else {
        Step { units: seq![Unit::Half(29), Unit::Half(p as u8)], next: k + 1, mode }
    }
}

/// The step for any other byte: 913 and the byte, each in a slot of its
/// own.
pub open spec fn byte_step(s: Seq<u8>, k: int, mode: EncodingMode) -> Step {
    Step { units: seq![Unit::Whole(913), Unit::Whole(s[k] as u16)], next: k + 1, mode }
}

/// The step of text compaction at index `k` in the mode `mode`.
pub open spec fn text_step(s: Seq<u8>, k: int, mode: EncodingMode) -> Step {
    let c = s[k];
    if is_upper(c) {
        upper_step(s, k, mode)
    } else if is_lower(c) {
        lower_step(s, k, mode)
    } else if is_digit(c) {
        digit_step(s, k, mode)
    } else if c == 32 {
        space_step(s, k, mode)
    } else if position(MIXED_CHAR_SET@, c) >= 0 {
        mixed_step(s, k, mode, position(MIXED_CHAR_SET@, c))
    } else if position(PUNC_CHAR_SET@, c) >= 0 {
        punct_step(s, k, mode, position(PUNC_CHAR_SET@, c))
    } else {
        byte_step(s, k, mode)
    }
}

/// The units that text compaction emits for the bytes from index `k` on,
/// entered in the mode `mode`.
pub open spec fn text_units(s: Seq<u8>, k: int, mode: EncodingMode) -> Seq<Unit>
    decreases s.len() - k,
{
    if 0 <= k < s.len() {
        let step = text_step(s, k, mode);
        if k < step.next <= s.len() {
            step.units + text_units(s, step.next, step.mode)
        } else {
            step.units
        }
    } else {
        Seq::empty()
    }
}

/// The mode in which text compaction ends after the bytes from index `k`
/// on, entered in the mode `mode`.
pub open spec fn text_end_mode(s: Seq<u8>, k: int, mode: EncodingMode) -> EncodingMode
    decreases s.len() - k,
{
    if 0 <= k < s.len() {
        let step = text_step(s, k, mode);
        if k < step.next <= s.len() {
            text_end_mode(s, step.next, step.mode)
        } else {
            step.mode
        }
    } else {
        mode
    }
}

/// The slots that a sequence of units has filled, and the half that waits
/// for its partner.
pub open spec fn pack_state(units: Seq<Unit>) -> (Seq<u16>, Option<u8>)
    decreases units.len(),
{
    if units.len() == 0 {
        (Seq::empty(), None)
    } else {
        let (slots, pending) = pack_state(units.drop_last());
        match (units.last(), pending) {
            (Unit::Half(v), None) => (slots, Some(v)),
            (Unit::Half(v), Some(h)) => (slots.push((h * 30 + v) as u16), None),
            (Unit::Whole(w), None) => (slots.push(w), None),
            (Unit::Whole(w), Some(h)) => (slots.push((h * 30 + 29) as u16).push(w), None),
        }
    }
}

/// The slots that a sequence of units fills: two halves to a slot as
/// `hi * 30 + lo`; a half that a whole slot or the end follows is
/// completed by 29.
pub open spec fn pack(units: Seq<Unit>) -> Seq<u16> {
    let (slots, pending) = pack_state(units);
    match pending {
        None => slots,
        Some(h) => slots.push((h * 30 + 29) as u16),
    }
}

/// The codewords of a text segment entered in the mode `mode`.
pub open spec fn text_codewords(s: Seq<u8>, mode: EncodingMode) -> Seq<u16> {
    pack(text_units(s, 0, mode))
}

/// Tells whether `p` is the head of `all`.
pub open spec fn is_prefix(p: Seq<Unit>, all: Seq<Unit>) -> bool {
    p.len() <= all.len() && forall|i: int| 0 <= i < p.len() ==> p[i] == all[i]
}

/// More units fill no fewer slots.
pub proof fn lemma_pack_prefix(p: Seq<Unit>, all: Seq<Unit>)
    requires
        is_prefix(p, all),
    ensures
        pack(p).len() <= pack(all).len(),
    decreases all.len() - p.len(),
{
    if p.len() < all.len() {
        let q = p.push(all[p.len() as int]);
        assert(q.drop_last() =~= p);
        lemma_pack_prefix(q, all);
    } else {
        assert(p =~= all);
    }
}

/// Whole slots that follow filled slots are taken over as they are.
pub proof fn lemma_pack_wholes(done: Seq<Unit>, ws: Seq<u16>)
    requires
        pack_state(done).1 is None,
    ensures
        pack_state(done + wholes(ws)) == (pack_state(done).0 + ws, None::<u8>),
    decreases ws.len(),
{
    if ws.len() == 0 {
        assert(done + wholes(ws) =~= done);
        assert(pack_state(done).0 + ws =~= pack_state(done).0);
    } else {
        let head = ws.drop_last();
        lemma_pack_wholes(done, head);
        assert((done + wholes(ws)).drop_last() =~= done + wholes(head));
        assert((pack_state(done).0 + head).push(ws.last()) =~= pack_state(done).0 + ws);
    }
}

/// The digits that follow each other from `k` on end within the input.
pub proof fn lemma_digit_span_bound(s: Seq<u8>, k: int)
    requires
        0 <= k <= s.len(),
    ensures
        k + digit_span(s, k) <= s.len(),
        forall|i: int| k <= i < k + digit_span(s, k) ==> is_digit(#[trigger] s[i]),
        k + digit_span(s, k) < s.len() ==> !is_digit(s[k + digit_span(s, k)]),
    decreases s.len() - k,
{
    if k < s.len() && is_digit(s[k]) {
        lemma_digit_span_bound(s, k + 1);
    }
}

/// A run of digits goes on where a shorter one ends.
pub proof fn lemma_digit_span_split(s: Seq<u8>, k: int, d: int)
    requires
        0 <= k,
        0 <= d <= digit_span(s, k),
    ensures
        digit_span(s, k) == d + digit_span(s, k + d),
    decreases d,
{
    if d > 0 {
        lemma_digit_span_split(s, k + 1, d - 1);
    }
}

/// Every step of text compaction consumes at least one byte and none
/// beyond the input.
pub proof fn lemma_step_advances(s: Seq<u8>, k: int, mode: EncodingMode)
    requires
        0 <= k < s.len(),
    ensures
        k < text_step(s, k, mode).next <= s.len(),
{
    lemma_digit_span_bound(s, k);
}

/// The write position of text compaction: the slot that is filled next,
/// and the half that waits in it for its partner.
#[derive(Clone, Copy, Debug)]
pub struct Packer {
    pub cursor: usize,
    pub pending: Option<u8>,
}

/// Tells that the packer `pk` has written the units `done` into `out`
/// from the slot `at` on, and nothing else of what `out` held before.
pub open spec fn packed(
    before: Seq<u16>,
    out: Seq<u16>,
    at: int,
    pk: Packer,
    done: Seq<Unit>,
) -> bool {
    &&& 0 <= at
    &&& pk.cursor == at + pack_state(done).0.len()
    &&& pk.cursor <= out.len()
    &&& out == splice(before, at, pack_state(done).0)
    &&& pk.pending == pack_state(done).1
}

impl Packer {
    /// A packer that fills the slot `at` next.
    pub fn new(at: usize) -> (pk: Self)
        ensures
            pk.cursor == at,
            pk.pending is None,
    {
        Packer { cursor: at, pending: None }
    }

    /// Takes in half a slot. Where a half waits, the two fill the slot at
    /// the cursor as `hi * 30 + lo`; else the half waits for its partner.
    pub fn push_narrow(&mut self, out: &mut [u16], v: u8)
        requires
            old(self).pending is Some ==> old(self).cursor < old(out)@.len(),
        ensures
            match old(self).pending {
                None => {
                    &&& final(self).pending == Some(v)
                    &&& final(self).cursor == old(self).cursor
                    &&& final(out)@ == old(out)@
                },
                Some(h) => {
                    &&& final(self).pending is None
                    &&& final(self).cursor == old(self).cursor + 1
                    &&& final(out)@ == old(out)@.update(
                        old(self).cursor as int,
                        (h * 30 + v) as u16,
                    )
                },
            },
    {
        match self.pending {
            None => {
                self.pending = Some(v);
            },
            Some(h) => {
                out[self.cursor] = h as u16 * 30 + v as u16;
                self.cursor = self.cursor + 1;
                self.pending = None;
            },
        }
    }

    /// Completes with 29 the half that waits, if one does.
    pub fn flush(&mut self, out: &mut [u16])
        requires
            old(self).pending is Some ==> old(self).cursor < old(out)@.len(),
        ensures
            final(self).pending is None,
            match old(self).pending {
                None => {
                    &&& final(self).cursor == old(self).cursor
                    &&& final(out)@ == old(out)@
                },
                Some(h) => {
                    &&& final(self).cursor == old(self).cursor + 1
                    &&& final(out)@ == old(out)@.update(
                        old(self).cursor as int,
                        (h * 30 + 29) as u16,
                    )
                },
            },
    {
        match self.pending {
            None => {},
            Some(h) => {
                out[self.cursor] = h as u16 * 30 + 29;
                self.cursor = self.cursor + 1;
                self.pending = None;
            },
        }
    }

    /// Takes in a whole slot, after completing with 29 the half that
    /// waits, if one does.
    pub fn push_wide(&mut self, out: &mut [u16], w: u16)
        requires
            old(self).cursor + (if old(self).pending is Some {
                2int
            } else {
                1int
            }) <= old(out)@.len(),
        ensures
            final(self).pending is None,
            match old(self).pending {
                None => {
                    &&& final(self).cursor == old(self).cursor + 1
                    &&& final(out)@ == old(out)@.update(old(self).cursor as int, w)
                },
                Some(h) => {
                    &&& final(self).cursor == old(self).cursor + 2
                    &&& final(out)@ == old(out)@.update(
                        old(self).cursor as int,
                        (h * 30 + 29) as u16,
                    ).update(old(self).cursor + 1, w)
                },
            },
    {
        self.flush(out);
        out[self.cursor] = w;
        self.cursor = self.cursor + 1;
    }
}

/// Emits one unit that is the next of `all` after `done`.
fn emit(
    out: &mut [u16],
    pk: &mut Packer,
    unit: Unit,
    Ghost(before): Ghost<Seq<u16>>,
    Ghost(at): Ghost<int>,
    Ghost(done): Ghost<Seq<Unit>>,
    Ghost(all): Ghost<Seq<Unit>>,
)
    requires
        packed(before, old(out)@, at, *old(pk), done),
        is_prefix(done, all),
        done.len() < all.len(),
        all[done.len() as int] == unit,
        at + pack(all).len() <= old(out)@.len(),
    ensures
        packed(before, final(out)@, at, *final(pk), done.push(unit)),
        is_prefix(done.push(unit), all),
{
    let ghost next = done.push(unit);
    proof {
        assert(next.drop_last() =~= done);
        lemma_pack_prefix(next, all);
    }
    match unit {
        Unit::Half(v) => {
            pk.push_narrow(out, v);
        },
        Unit::Whole(w) => {
            pk.push_wide(out, w);
        },
    }
    proof {
        assert(out@ =~= splice(before, at, pack_state(next).0));
    }
}

/// Finds the index at which `c` first stands in `set`.
pub fn find(set: &[u8], c: u8) -> (r: Option<usize>)
    ensures
        match r {
            Some(p) => p < set@.len() && position(set@, c) == p,
            None => position(set@, c) < 0,
        },
{
    let mut i: usize = set.len();
    let mut found: Option<usize> = None;
    assert(set@.skip(set@.len() as int) =~= Seq::<u8>::empty());
    while i > 0
        invariant
            i <= set@.len(),
            match found {
                Some(p) => i <= p < set@.len() && position(set@.skip(i as int), c) == p - i,
                None => position(set@.skip(i as int), c) < 0,
            },
        decreases i,
    {
        i = i - 1;
        proof {
            assert(set@.skip(i as int).skip(1) =~= set@.skip(i + 1));
            assert(set@.skip(i as int)[0] == set@[i as int]);
        }
        if set[i] == c {
            found = Some(i);
        }
    }
    assert(set@.skip(0) =~= set@);
    found
}

/// Tells whether a byte belongs to the punctuation sub-mode.
pub fn in_punct_set(c: u8) -> (b: bool)
    ensures
        b == is_punct(c),
{
    find(PUNC_CHAR_SET.as_slice(), c).is_some()
}

/// Takes in the upper-case letter at index `k`.
fn encode_upper(
    out: &mut [u16],
    pk: &mut Packer,
    s: &[u8],
    k: usize,
    mode: EncodingMode,
    Ghost(before): Ghost<Seq<u16>>,
    Ghost(at): Ghost<int>,
    Ghost(done): Ghost<Seq<Unit>>,
    Ghost(all): Ghost<Seq<Unit>>,
) -> (left: EncodingMode)
    requires
        k < s@.len(),
        is_upper(s@[k as int]),
        packed(before, old(out)@, at, *old(pk), done),
        is_prefix(done + upper_step(s@, k as int, mode).units, all),
        at + pack(all).len() <= old(out)@.len(),
    ensures
        left == upper_step(s@, k as int, mode).mode,
        packed(before, final(out)@, at, *final(pk), done + upper_step(s@, k as int, mode).units),
{
    let ghost units = upper_step(s@, k as int, mode).units;
    let ghost target = done + units;
    let ghost mut d = done;
    let mut left = EncodingMode::Upper;
    assert(forall|i: int| 0 <= i < units.len() ==> all[done.len() + i] == #[trigger] target[done.len() + i]);
    match mode {
        EncodingMode::Lower => {
            let n = s.len();
            let shift = k + 1 < n && ((s[k + 1] >= 97 && s[k + 1] <= 122) || s[k + 1] == 32);
            if shift {
                emit(out, pk, Unit::Half(27), Ghost(before), Ghost(at), Ghost(d), Ghost(all));
                proof {
                    d = d.push(Unit::Half(27));
                }
                left = EncodingMode::Lower;
            } else {
                emit(out, pk, Unit::Half(29), Ghost(before), Ghost(at), Ghost(d), Ghost(all));
                proof {
                    d = d.push(Unit::Half(29));
                }
                emit(out, pk, Unit::Half(29), Ghost(before), Ghost(at), Ghost(d), Ghost(all));
                proof {
                    d = d.push(Unit::Half(29));
                }
            }
        },
        EncodingMode::Mixed => {
            emit(out, pk, Unit::Half(28), Ghost(before), Ghost(at), Ghost(d), Ghost(all));
            proof {
                d = d.push(Unit::Half(28));
            }
        },
        EncodingMode::Punctuation => {
            emit(out, pk, Unit::Half(29), Ghost(before), Ghost(at), Ghost(d), Ghost(all));
            proof {
                d = d.push(Unit::Half(29));
            }
        },
        _ => {},
    }
    emit(out, pk, Unit::Half(s[k] - 65), Ghost(before), Ghost(at), Ghost(d), Ghost(all));
    proof {
        d = d.push(Unit::Half((s@[k as int] - 65) as u8));
        assert(d =~= target);
    }
    left
}

/// Takes in the lower-case letter at index `k`.
fn encode_lower(
    out: &mut [u16],
    pk: &mut Packer,
    s: &[u8],
    k: usize,
    mode: EncodingMode,
    Ghost(before): Ghost<Seq<u16>>,
    Ghost(at): Ghost<int>,
    Ghost(done): Ghost<Seq<Unit>>,
    Ghost(all): Ghost<Seq<Unit>>,
) -> (left: EncodingMode)
    requires
        k < s@.len(),
        is_lower(s@[k as int]),
        packed(before, old(out)@, at, *old(pk), done),
        is_prefix(done + lower_step(s@, k as int, mode).units, all),
        at + pack(all).len() <= old(out)@.len(),
    ensures
        left == lower_step(s@, k as int, mode).mode,
        packed(before, final(out)@, at, *final(pk), done + lower_step(s@, k as int, mode).units),
{
    let ghost units = lower_step(s@, k as int, mode).units;
    let ghost target = done + units;
    let ghost mut d = done;
    assert(forall|i: int|
        0 <= i < units.len() ==> all[done.len() + i] == #[trigger] target[done.len() + i]);
    match mode {
        EncodingMode::Lower => {},
        EncodingMode::Punctuation => {
            emit(out, pk, Unit::Half(29), Ghost(before), Ghost(at), Ghost(d), Ghost(all));
            proof {
                d = d.push(Unit::Half(29));
            }
            emit(out, pk, Unit::Half(27), Ghost(before), Ghost(at), Ghost(d), Ghost(all));
            proof {
                d = d.push(Unit::Half(27));
            }
        },
        _ => {
            emit(out, pk, Unit::Half(27), Ghost(before), Ghost(at), Ghost(d), Ghost(all));
            proof {
                d = d.push(Unit::Half(27));
            }
        },
    }
    emit(out, pk, Unit::Half(s[k] - 97), Ghost(before), Ghost(at), Ghost(d), Ghost(all));
    proof {
        d = d.push(Unit::Half((s@[k as int] - 97) as u8));
        assert(d =~= target);
    }
    EncodingMode::Lower
}

/// Takes in the space at index `k`.
fn encode_space(
    out: &mut [u16],
    pk: &mut Packer,
    s: &[u8],
    k: usize,
    mode: EncodingMode,
    Ghost(before): Ghost<Seq<u16>>,
    Ghost(at): Ghost<int>,
    Ghost(done): Ghost<Seq<Unit>>,
    Ghost(all): Ghost<Seq<Unit>>,
) -> (left: EncodingMode)
    requires
        k < s@.len(),
        packed(before, old(out)@, at, *old(pk), done),
        is_prefix(done + space_step(s@, k as int, mode).units, all),
        at + pack(all).len() <= old(out)@.len(),
    ensures
        left == space_step(s@, k as int, mode).mode,
        packed(before, final(out)@, at, *final(pk), done + space_step(s@, k as int, mode).units),
{
    let ghost units = space_step(s@, k as int, mode).units;
    let ghost target = done + units;
    let ghost mut d = done;
    assert(forall|i: int|
        0 <= i < units.len() ==> all[done.len() + i] == #[trigger] target[done.len() + i]);
    let mut left = mode;
    match mode {
        EncodingMode::Punctuation => {
            emit(out, pk, Unit::Half(29), Ghost(before), Ghost(at), Ghost(d), Ghost(all));
            proof {
                d = d.push(Unit::Half(29));
            }
            left = EncodingMode::Upper;
        },
        _ => {},
    }
    emit(out, pk, Unit::Half(26), Ghost(before), Ghost(at), Ghost(d), Ghost(all));
    proof {
        d = d.push(Unit::Half(26));
        assert(d =~= target);
    }
    left
}

/// Takes in the character at index `k`, which stands at position `p` of
/// the mixed set.
fn encode_mixed(
    out: &mut [u16],
    pk: &mut Packer,
    s: &[u8],
    k: usize,
    mode: EncodingMode,
    Ghost(before): Ghost<Seq<u16>>,
    Ghost(at): Ghost<int>,
    Ghost(done): Ghost<Seq<Unit>>,
    Ghost(all): Ghost<Seq<Unit>>,
    p: usize,
) -> (left: EncodingMode)
    requires
        k < s@.len(),
        p < 15,
        packed(before, old(out)@, at, *old(pk), done),
        is_prefix(done + mixed_step(s@, k as int, mode, p as int).units, all),
        at + pack(all).len() <= old(out)@.len(),
    ensures
        left == mixed_step(s@, k as int, mode, p as int).mode,
        packed(before, final(out)@, at, *final(pk), done + mixed_step(s@, k as int, mode, p as int).units),
{
    let ghost units = mixed_step(s@, k as int, mode, p as int).units;
    let ghost target = done + units;
    let ghost mut d = done;
    assert(forall|i: int|
        0 <= i < units.len() ==> all[done.len() + i] == #[trigger] target[done.len() + i]);
    let mut left = EncodingMode::Mixed;
    match mode {
        EncodingMode::Mixed => {},
        EncodingMode::Punctuation => {
            if (1 <= p && p <= 4) || (6 <= p && p <= 9) {
                left = EncodingMode::Punctuation;
            } else {
                emit(out, pk, Unit::Half(29), Ghost(before), Ghost(at), Ghost(d), Ghost(all));
            proof {
                d = d.push(Unit::Half(29));
            }
                emit(out, pk, Unit::Half(28), Ghost(before), Ghost(at), Ghost(d), Ghost(all));
            proof {
                d = d.push(Unit::Half(28));
            }
            }
        },
        _ => {
            emit(out, pk, Unit::Half(28), Ghost(before), Ghost(at), Ghost(d), Ghost(all));
            proof {
                d = d.push(Unit::Half(28));
            }
        },
    }
    emit(out, pk, Unit::Half(p as u8 + 10), Ghost(before), Ghost(at), Ghost(d), Ghost(all));
    proof {
        d = d.push(Unit::Half((p + 10) as u8));
        assert(d =~= target);
    }
    left
}

/// Takes in the character at index `k`, which stands at position `p` of
/// the punctuation set.
fn encode_punct(
    out: &mut [u16],
    pk: &mut Packer,
    s: &[u8],
    k: usize,
    mode: EncodingMode,
    Ghost(before): Ghost<Seq<u16>>,
    Ghost(at): Ghost<int>,
    Ghost(done): Ghost<Seq<Unit>>,
    Ghost(all): Ghost<Seq<Unit>>,
    p: usize,
) -> (left: EncodingMode)
    requires
        k < s@.len(),
        p < 29,
        packed(before, old(out)@, at, *old(pk), done),
        is_prefix(done + punct_step(s@, k as int, mode, p as int).units, all),
        at + pack(all).len() <= old(out)@.len(),
    ensures
        left == punct_step(s@, k as int, mode, p as int).mode,
        packed(before, final(out)@, at, *final(pk), done + punct_step(s@, k as int, mode, p as int).units),
{
    let ghost units = punct_step(s@, k as int, mode, p as int).units;
    let ghost target = done + units;
    let ghost mut d = done;
    assert(forall|i: int|
        0 <= i < units.len() ==> all[done.len() + i] == #[trigger] target[done.len() + i]);
    let mut left = mode;
    match mode {
        EncodingMode::Punctuation => {},
        _ => {
            let n = s.len();
            let latch = n - k > 2 && in_punct_set(s[k + 1]) && in_punct_set(s[k + 2]);
            if latch {
                match mode {
                    EncodingMode::Mixed => {},
                    _ => {
                        emit(out, pk, Unit::Half(28), Ghost(before), Ghost(at), Ghost(d), Ghost(all));
            proof {
                d = d.push(Unit::Half(28));
            }
                    },
                }
                emit(out, pk, Unit::Half(25), Ghost(before), Ghost(at), Ghost(d), Ghost(all));
            proof {
                d = d.push(Unit::Half(25));
            }
                left = EncodingMode::Punctuation;
            } else {
                emit(out, pk, Unit::Half(29), Ghost(before), Ghost(at), Ghost(d), Ghost(all));
            proof {
                d = d.push(Unit::Half(29));
            }
            }
        },
    }
    emit(out, pk, Unit::Half(p as u8), Ghost(before), Ghost(at), Ghost(d), Ghost(all));
    proof {
        d = d.push(Unit::Half(p as u8));
        assert(d =~= target);
    }
    left
}

/// Takes in the byte at index `k` as a raw byte.
fn encode_byte(
    out: &mut [u16],
    pk: &mut Packer,
    s: &[u8],
    k: usize,
    mode: EncodingMode,
    Ghost(before): Ghost<Seq<u16>>,
    Ghost(at): Ghost<int>,
    Ghost(done): Ghost<Seq<Unit>>,
    Ghost(all): Ghost<Seq<Unit>>,
) -> (left: EncodingMode)
    requires
        k < s@.len(),
        packed(before, old(out)@, at, *old(pk), done),
        is_prefix(done + byte_step(s@, k as int, mode).units, all),
        at + pack(all).len() <= old(out)@.len(),
    ensures
        left == byte_step(s@, k as int, mode).mode,
        packed(before, final(out)@, at, *final(pk), done + byte_step(s@, k as int, mode).units),
{
    let ghost units = byte_step(s@, k as int, mode).units;
    let ghost target = done + units;
    let ghost mut d = done;
    assert(forall|i: int|
        0 <= i < units.len() ==> all[done.len() + i] == #[trigger] target[done.len() + i]);
    emit(out, pk, Unit::Whole(M_SHIFT_BYTE), Ghost(before), Ghost(at), Ghost(d), Ghost(all));
    proof {
        d = d.push(Unit::Whole(913));
    }
    emit(out, pk, Unit::Whole(s[k] as u16), Ghost(before), Ghost(at), Ghost(d), Ghost(all));
    proof {
        d = d.push(Unit::Whole(s@[k as int] as u16));
        assert(d =~= target);
    }
    mode
}

/// A sequence is the head of itself with more behind it.
pub proof fn lemma_prefix_of_concat(p: Seq<Unit>, rest: Seq<Unit>)
    ensures
        is_prefix(p, p + rest),
{
}

/// The head of a head is a head.
pub proof fn lemma_prefix_transitive(p: Seq<Unit>, q: Seq<Unit>, all: Seq<Unit>)
    requires
        is_prefix(p, q),
        is_prefix(q, all),
    ensures
        is_prefix(p, all),
{
}

/// Measures the numeric block that starts at index `k`: the digits that
/// follow each other from there, 44 at most.
pub fn scan_digits(s: &[u8], k: usize) -> (d: usize)
    requires
        k <= s@.len(),
    ensures
        d == block_len(s@, k as int),
        k + d <= s@.len(),
        d <= 44,
        d <= digit_span(s@, k as int),
        forall|i: int| k <= i < k + d ==> is_digit(#[trigger] s@[i]),
{
    let n = s.len();
    let mut e: usize = k;
    while e < n && e - k < MAX_DIGITS && s[e] >= 48 && s[e] <= 57
        invariant
            k <= e <= n,
            n == s@.len(),
            e - k <= 44,
            digit_span(s@, k as int) == (e - k) + digit_span(s@, e as int),
            forall|i: int| k <= i < e ==> is_digit(#[trigger] s@[i]),
        decreases n - e,
    {
        e = e + 1;
    }
    e - k
}

/// Takes in the run of digits that starts at index `k`.
fn encode_digits(
    out: &mut [u16],
    pk: &mut Packer,
    s: &[u8],
    k: usize,
    mode: EncodingMode,
    Ghost(before): Ghost<Seq<u16>>,
    Ghost(at): Ghost<int>,
    Ghost(done): Ghost<Seq<Unit>>,
    Ghost(all): Ghost<Seq<Unit>>,
) -> (left: (usize, EncodingMode))
    requires
        k < s@.len(),
        is_digit(s@[k as int]),
        packed(before, old(out)@, at, *old(pk), done),
        is_prefix(done + digit_step(s@, k as int, mode).units, all),
        at + pack(all).len() <= old(out)@.len(),
    ensures
        left.0 == digit_step(s@, k as int, mode).next,
        left.1 == digit_step(s@, k as int, mode).mode,
        packed(before, final(out)@, at, *final(pk), done + digit_step(s@, k as int, mode).units),
{
    let ghost units = digit_step(s@, k as int, mode).units;
    let ghost target = done + units;
    let ghost mut d = done;
    let ghost span = digit_span(s@, k as int);
    let n = s.len();
    proof {
        lemma_digit_span_bound(s@, k as int);
        lemma_prefix_of_concat(done, units);
    }
    let first = scan_digits(s, k);
    if first <= 13 {
        assert(first == span);
        let ghost run = s@.subrange(k as int, k + span);
        let ghost latch: Seq<Unit> = match mode {
            EncodingMode::Mixed => Seq::empty(),
            EncodingMode::Punctuation => seq![Unit::Half(29), Unit::Half(28)],
            _ => seq![Unit::Half(28)],
        };
        assert(units == latch + halves(digit_values(run)));
        assert(forall|i: int|
            0 <= i < units.len() ==> all[done.len() + i] == #[trigger] target[done.len() + i]);
        match mode {
            EncodingMode::Mixed => {},
            EncodingMode::Punctuation => {
                emit(out, pk, Unit::Half(29), Ghost(before), Ghost(at), Ghost(d), Ghost(all));
                proof {
                    d = d.push(Unit::Half(29));
                }
                emit(out, pk, Unit::Half(28), Ghost(before), Ghost(at), Ghost(d), Ghost(all));
                proof {
                    d = d.push(Unit::Half(28));
                }
            },
            _ => {
                emit(out, pk, Unit::Half(28), Ghost(before), Ghost(at), Ghost(d), Ghost(all));
                proof {
                    d = d.push(Unit::Half(28));
                }
            },
        }
        assert(d =~= done + latch);
        let mut j: usize = k;
        while j < k + first
            invariant
                k <= j <= k + first,
                k + first <= n,
                n == s@.len(),
                first == span,
                run == s@.subrange(k as int, k + span),
                target == done + units,
                units == latch + halves(digit_values(run)),
                d.len() == done.len() + latch.len() + (j - k),
                is_prefix(d, target),
                is_prefix(d, all),
                is_prefix(target, all),
                packed(before, out@, at, *pk, d),
                at + pack(all).len() <= out@.len(),
                forall|i: int| k <= i < k + first ==> is_digit(#[trigger] s@[i]),
            decreases k + first - j,
        {
            let ghost unit = Unit::Half((s@[j as int] - 48) as u8);
            proof {
                let i = d.len() as int;
                assert(target[i] == units[i - done.len()]);
                assert(units[i - done.len()] == halves(digit_values(run))[j - k]);
                assert(digit_values(run)[j - k] == (run[j - k] - 48) as u8);
                assert(target[i] == unit);
                assert(all[i] == target[i]);
            }
            emit(out, pk, Unit::Half(s[j] - 48), Ghost(before), Ghost(at), Ghost(d), Ghost(all));
            proof {
                d = d.push(unit);
            }
            j = j + 1;
        }
        assert(d =~= target);
        (k + first, EncodingMode::Mixed)
    } else {
        assert(span > 13);
        let ghost leave: Seq<Unit> = if k + span < s@.len() {
            seq![Unit::Whole(900)]
        } else {
            Seq::empty()
        };
        assert(units == seq![Unit::Whole(902)] + numeric_units(s@, k as int) + leave);
        assert(all[done.len() as int] == target[done.len() as int]);
        emit(out, pk, Unit::Whole(M_LATCH_NUMERIC), Ghost(before), Ghost(at), Ghost(d), Ghost(all));
        proof {
            d = d.push(Unit::Whole(902));
            assert(d + numeric_units(s@, k as int) + leave =~= target);
        }
        let mut j: usize = k;
        while j < n && s[j] >= 48 && s[j] <= 57
            invariant
                k <= j <= n,
                n == s@.len(),
                span == digit_span(s@, k as int),
                span == (j - k) + digit_span(s@, j as int),
                pk.pending is None,
                packed(before, out@, at, *pk, d),
                d + numeric_units(s@, j as int) + leave == target,
                is_prefix(target, all),
                at + pack(all).len() <= out@.len(),
            decreases n - j,
        {
            let len = scan_digits(s, j);
            let ghost block = s@.subrange(j as int, j + len);
            let ghost cw = digits_codewords(block);
            let ghost grown = d + wholes(cw);
            proof {
                lemma_digit_span_split(s@, j as int, len as int);
                crate::numeric::lemma_base900_shape(
                    crate::numeric::pow10(block.len()) + crate::numeric::decimal_value(block),
                    block.len() / 3 + 1,
                );
                lemma_pack_wholes(d, cw);
                assert(numeric_units(s@, j as int) == wholes(cw) + numeric_units(s@, j + len));
                assert(grown + numeric_units(s@, j + len) + leave =~= target);
                lemma_prefix_of_concat(grown, numeric_units(s@, j + len) + leave);
                assert(grown + (numeric_units(s@, j + len) + leave) =~= target);
                lemma_pack_prefix(grown, target);
                lemma_pack_prefix(target, all);
            }
            let size = out.len();
            assert(pk.cursor + len / 3 + 1 <= size);
            let wrote = write_digits(out, pk.cursor, s, j, j + len);
            pk.cursor = pk.cursor + wrote;
            proof {
                assert(out@ =~= splice(before, at, pack_state(d).0 + cw));
                d = grown;
            }
            j = j + len;
        }
        proof {
            assert(numeric_units(s@, j as int) =~= Seq::<Unit>::empty());
            assert(d + leave =~= target);
        }
        if j < n {
            assert(is_prefix(d, all)) by {
                lemma_prefix_of_concat(d, leave);
                lemma_prefix_transitive(d, target, all);
            }
            assert(all[d.len() as int] == target[d.len() as int]);
            emit(out, pk, Unit::Whole(M_LATCH_TEXT), Ghost(before), Ghost(at), Ghost(d), Ghost(all));
            proof {
                d = d.push(Unit::Whole(900));
                assert(d =~= target);
            }
            (j, EncodingMode::Upper)
        } else {
            assert(d =~= target);
            (j, EncodingMode::Numeric)
        }
    }
}

/// Compacts the bytes `s` as text into `out` from the slot `at` on,
/// entering in the mode `mode`. Returns the slot after the last one
/// written, and the mode in which the text ends.
pub fn compact_text(out: &mut [u16], at: usize, mode: EncodingMode, s: &[u8]) -> (end: (
    usize,
    EncodingMode,
))
    requires
        at + text_codewords(s@, mode).len() <= old(out)@.len(),
    ensures
        end.0 == at + text_codewords(s@, mode).len(),
        end.1 == text_end_mode(s@, 0, mode),
        final(out)@ == splice(old(out)@, at as int, text_codewords(s@, mode)),
{
    let ghost before = out@;
    let ghost all = text_units(s@, 0, mode);
    let ghost mut done: Seq<Unit> = Seq::empty();
    let mut pk = Packer::new(at);
    let mut k: usize = 0;
    let mut m = mode;
    let n = s.len();
    proof {
        assert(out@ =~= splice(before, at as int, pack_state(done).0));
        assert(done + text_units(s@, 0, mode) =~= all);
    }
    while k < n
        invariant
            k <= n,
            n == s@.len(),
            packed(before, out@, at as int, pk, done),
            done + text_units(s@, k as int, m) == all,
            text_end_mode(s@, k as int, m) == text_end_mode(s@, 0, mode),
            at + pack(all).len() <= out@.len(),
        decreases n - k,
    {
        let c = s[k];
        let ghost step = text_step(s@, k as int, m);
        proof {
            lemma_step_advances(s@, k as int, m);
            assert(text_units(s@, k as int, m) == step.units + text_units(
                s@,
                step.next,
                step.mode,
            ));
            assert(done + step.units + text_units(s@, step.next, step.mode) =~= all);
            lemma_prefix_of_concat(done + step.units, text_units(s@, step.next, step.mode));
        }
        if c >= 65 && c <= 90 {
            m =
            encode_upper(out, &mut pk, s, k, m, Ghost(before), Ghost(at as int), Ghost(done), Ghost(all));
            k = k + 1;
        } else if c >= 97 && c <= 122 {
            m =
            encode_lower(out, &mut pk, s, k, m, Ghost(before), Ghost(at as int), Ghost(done), Ghost(all));
            k = k + 1;
        } else if c >= 48 && c <= 57 {
            let left = encode_digits(
                out,
                &mut pk,
                s,
                k,
                m,
                Ghost(before),
                Ghost(at as int),
                Ghost(done),
                Ghost(all),
            );
            k = left.0;
            m = left.1;
        } else if c == 32 {
            m =
            encode_space(out, &mut pk, s, k, m, Ghost(before), Ghost(at as int), Ghost(done), Ghost(all));
            k = k + 1;
        } else {
            match find(MIXED_CHAR_SET.as_slice(), c) {
                Some(p) => {
                    m =
                    encode_mixed(
                        out,
                        &mut pk,
                        s,
                        k,
                        m,
                        Ghost(before),
                        Ghost(at as int),
                        Ghost(done),
                        Ghost(all),
                        p,
                    );
                },
                None => {
                    match find(PUNC_CHAR_SET.as_slice(), c) {
                        Some(p) => {
                            m =
                            encode_punct(
                                out,
                                &mut pk,
                                s,
                                k,
                                m,
                                Ghost(before),
                                Ghost(at as int),
                                Ghost(done),
                                Ghost(all),
                                p,
                            );
                        },
                        None => {
                            m =
                            encode_byte(
                                out,
                                &mut pk,
                                s,
                                k,
                                m,
                                Ghost(before),
                                Ghost(at as int),
                                Ghost(done),
                                Ghost(all),
                            );
                        },
                    }
                },
            }
            k = k + 1;
        }
        proof {
            done = done + step.units;
        }
    }
    proof {
        assert(done =~= all);
    }
    pk.flush(out);
    proof {
        assert(out@ =~= splice(before, at as int, pack(all)));
    }
    (pk.cursor, m)
}

/// Tells whether a unit is one that text compaction emits: half a slot
/// holds a sub-codeword below 30, a whole slot a codeword.
pub open spec fn unit_fits(unit: Unit) -> bool {
    match unit {
        Unit::Half(v) => v < 30,
        Unit::Whole(w) => w < 929,
    }
}

/// Tells whether every unit of a sequence is one that text compaction
/// emits.
pub open spec fn units_fit(units: Seq<Unit>) -> bool {
    forall|i: int| 0 <= i < units.len() ==> unit_fits(#[trigger] units[i])
}

/// A character that stands in a set stands at an index of the set.
pub proof fn lemma_position_bound(set: Seq<u8>, c: u8)
    ensures
        -1 <= position(set, c) < set.len(),
        position(set, c) >= 0 ==> set[position(set, c)] == c,
    decreases set.len(),
{
    if set.len() > 0 && set[0] != c {
        lemma_position_bound(set.skip(1), c);
    }
}

/// Numeric blocks hold codewords.
pub proof fn lemma_numeric_units_fit(s: Seq<u8>, k: int)
    ensures
        units_fit(numeric_units(s, k)),
    decreases s.len() - k,
{
    let d = block_len(s, k);
    if !(d == 0 || k + d > s.len()) {
        let block = s.subrange(k, k + d);
        lemma_numeric_units_fit(s, k + d);
        lemma_base900_shape(
            crate::numeric::pow10(block.len()) + crate::numeric::decimal_value(block),
            block.len() / 3 + 1,
        );
    }
}

/// Every step of text compaction emits sub-codewords below 30 and
/// codewords.
pub proof fn lemma_step_fits(s: Seq<u8>, k: int, mode: EncodingMode)
    requires
        0 <= k < s.len(),
    ensures
        units_fit(text_step(s, k, mode).units),
{
    let c = s[k];
    lemma_position_bound(MIXED_CHAR_SET@, c);
    lemma_position_bound(PUNC_CHAR_SET@, c);
    if is_digit(c) && !is_upper(c) && !is_lower(c) {
        lemma_numeric_units_fit(s, k);
        lemma_digit_span_bound(s, k);
    }
}

/// Text compaction emits sub-codewords below 30 and codewords.
pub proof fn lemma_text_units_fit(s: Seq<u8>, k: int, mode: EncodingMode)
    ensures
        units_fit(text_units(s, k, mode)),
    decreases s.len() - k,
{
    if 0 <= k < s.len() {
        let step = text_step(s, k, mode);
        lemma_step_fits(s, k, mode);
        if k < step.next <= s.len() {
            lemma_text_units_fit(s, step.next, step.mode);
        }
    }
}

/// Units that text compaction emits fill slots with codewords, all of
/// them below 900 but for those that came as whole slots.
pub proof fn lemma_pack_fits(units: Seq<Unit>)
    requires
        units_fit(units),
    ensures
        all_codewords(pack_state(units).0),
        match pack_state(units).1 {
            Some(h) => h < 30,
            None => true,
        },
        all_codewords(pack(units)),
    decreases units.len(),
{
    if units.len() > 0 {
        assert(units_fit(units.drop_last())) by {
            assert forall|i: int| 0 <= i < units.drop_last().len() implies unit_fits(
                #[trigger] units.drop_last()[i],
            ) by {
                assert(units.drop_last()[i] == units[i]);
            }
        }
        lemma_pack_fits(units.drop_last());
        assert(unit_fits(units[units.len() - 1]));
    }
}

/// The codewords of a text segment are codewords.
pub proof fn lemma_text_codewords_bounded(s: Seq<u8>, mode: EncodingMode)
    ensures
        all_codewords(text_codewords(s, mode)),
{
    lemma_text_units_fit(s, 0, mode);
    lemma_pack_fits(text_units(s, 0, mode));
}

/// Tells whether every unit of a sequence is half a slot.
pub open spec fn all_halves(units: Seq<Unit>) -> bool {
    forall|i: int| 0 <= i < units.len() ==> (#[trigger] units[i]) is Half
}

/// Tells whether every unit of a sequence is a whole slot.
pub open spec fn all_wholes(units: Seq<Unit>) -> bool {
    forall|i: int| 0 <= i < units.len() ==> (#[trigger] units[i]) is Whole
}

/// Halves fill a slot for every two of them, and one more where the first
/// of them finds no half waiting and the last is left waiting.
pub proof fn lemma_pack_grows_by_halves(done: Seq<Unit>, more: Seq<Unit>)
    requires
        all_halves(more),
    ensures
        pack(done + more).len() <= pack(done).len() + (more.len() + (if pack_state(
            done + more,
        ).1 is Some {
            1int
        } else {
            0int
        })) / 2,
        pack(done + more).len() <= pack(done).len() + (more.len() + 1) / 2,
    decreases more.len(),
{
    if more.len() == 0 {
        assert(done + more =~= done);
    } else {
        let head = more.drop_last();
        assert(all_halves(head)) by {
            assert forall|i: int| 0 <= i < head.len() implies (#[trigger] head[i]) is Half by {
                assert(head[i] == more[i]);
            }
        }
        lemma_pack_grows_by_halves(done, head);
        assert((done + more).drop_last() =~= done + head);
        assert((done + more).last() == more[more.len() - 1]);
        assert(more[more.len() - 1] is Half);
    }
}

/// Every whole slot fills a slot more, of which the half that waited gets
/// one for itself.
pub proof fn lemma_pack_grows_by_wholes(done: Seq<Unit>, more: Seq<Unit>)
    requires
        all_wholes(more),
    ensures
        pack(done + more).len() == pack(done).len() + more.len(),
    decreases more.len(),
{
    if more.len() == 0 {
        assert(done + more =~= done);
    } else {
        let head = more.drop_last();
        assert(all_wholes(head)) by {
            assert forall|i: int| 0 <= i < head.len() implies (#[trigger] head[i]) is Whole by {
                assert(head[i] == more[i]);
            }
        }
        lemma_pack_grows_by_wholes(done, head);
        assert((done + more).drop_last() =~= done + head);
        assert((done + more).last() == more[more.len() - 1]);
        assert(more[more.len() - 1] is Whole);
    }
}

/// The numeric blocks of a run of digits are whole slots, no more of them
/// than there are digits.
pub proof fn lemma_numeric_units_len(s: Seq<u8>, k: int)
    requires
        0 <= k,
    ensures
        all_wholes(numeric_units(s, k)),
        numeric_units(s, k).len() <= digit_span(s, k),
    decreases s.len() - k,
{
    let d = block_len(s, k);
    if !(d == 0 || k + d > s.len()) {
        let block = s.subrange(k, k + d);
        lemma_numeric_units_len(s, k + d);
        lemma_digit_span_split(s, k, d as int);
        lemma_base900_shape(
            crate::numeric::pow10(block.len()) + crate::numeric::decimal_value(block),
            block.len() / 3 + 1,
        );
    }
}

/// A step of text compaction fills no more than two slots for every byte
/// that it consumes, a half that is left waiting counted as a slot.
pub proof fn lemma_step_cost(s: Seq<u8>, k: int, mode: EncodingMode, done: Seq<Unit>)
    requires
        0 <= k < s.len(),
    ensures
        pack(done + text_step(s, k, mode).units).len() <= pack(done).len() + 2 * (text_step(
            s,
            k,
            mode,
        ).next - k),
{
    let c = s[k];
    let step = text_step(s, k, mode);
    lemma_digit_span_bound(s, k);
    if is_digit(c) && !is_upper(c) && !is_lower(c) && digit_span(s, k) > 13 {
        lemma_numeric_units_len(s, k);
        lemma_pack_grows_by_wholes(done, step.units);
    } else if !is_upper(c) && !is_lower(c) && !is_digit(c) && c != 32 && position(
        MIXED_CHAR_SET@,
        c,
    ) < 0 && position(PUNC_CHAR_SET@, c) < 0 {
        lemma_pack_grows_by_wholes(done, step.units);
    } else {
        lemma_pack_grows_by_halves(done, step.units);
    }
}

/// Text compaction fills no more than two slots for every byte, whatever
/// was written before.
pub proof fn lemma_text_units_cost(s: Seq<u8>, k: int, mode: EncodingMode, done: Seq<Unit>)
    requires
        0 <= k <= s.len(),
    ensures
        pack(done + text_units(s, k, mode)).len() <= pack(done).len() + 2 * (s.len() - k),
    decreases s.len() - k,
{
    if k < s.len() {
        let step = text_step(s, k, mode);
        lemma_step_advances(s, k, mode);
        lemma_step_cost(s, k, mode, done);
        lemma_text_units_cost(s, step.next, step.mode, done + step.units);
        assert(done + step.units + text_units(s, step.next, step.mode) =~= done + text_units(
            s,
            k,
            mode,
        ));
    } else {
        assert(done + text_units(s, k, mode) =~= done);
    }
}

/// A text segment takes no more than two codewords for every byte.
pub proof fn lemma_text_codewords_len(s: Seq<u8>, mode: EncodingMode)
    ensures
        text_codewords(s, mode).len() <= 2 * s.len(),
{
    lemma_text_units_cost(s, 0, mode, Seq::empty());
    assert(Seq::<Unit>::empty() + text_units(s, 0, mode) =~= text_units(s, 0, mode));
}

} // verus!
