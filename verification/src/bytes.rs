//! Byte compaction: six bytes to five codewords in base 900, and what is
//! left over a byte to a codeword.

use crate::ecc::all_codewords;
use crate::numeric::{base900, lemma_base900_shape, splice, write_base900};
use crate::text::{EncodingMode, M_LATCH_BYTE, M_LATCH_BYTE_M6, M_SHIFT_BYTE};
use vstd::prelude::*;

verus! {

/// Tells whether a mode is one of the four sub-modes of text compaction.
pub open spec fn is_text_mode(mode: EncodingMode) -> bool {
    mode != EncodingMode::Numeric && mode != EncodingMode::Byte
}

/// The number that a sequence of bytes spells in base 256, the most
/// significant first.
pub open spec fn be_value(bytes: Seq<u8>) -> nat
    decreases bytes.len(),
{
    if bytes.len() == 0 {
        0
    } else {
        be_value(bytes.drop_last()) * 256 + bytes.last() as nat
    }
}

/// Each byte as a codeword.
pub open spec fn byte_values(bytes: Seq<u8>) -> Seq<u16> {
    Seq::new(bytes.len(), |i: int| bytes[i] as u16)
}

/// The body of a byte segment: every six bytes as the five base-900
/// digits of the number they spell, and the up to five bytes left over
/// as a codeword each.
pub open spec fn byte_groups(bytes: Seq<u8>) -> Seq<u16>
    decreases bytes.len(),
{
    if bytes.len() < 6 {
        byte_values(bytes)
    } else {
        base900(be_value(bytes.subrange(0, 6)), 5) + byte_groups(bytes.skip(6))
    }
}

/// The codewords of a byte segment. Two bytes or more are latched in with
/// 924 where their number is a multiple of six and with 901 where it is
/// not. A single byte, or none, is shifted in with 913 from text
/// compaction, and latched in with 901 from the other modes.
pub open spec fn byte_codewords(bytes: Seq<u8>, mode: EncodingMode) -> Seq<u16> {
    if bytes.len() > 1 {
        seq![if bytes.len() % 6 == 0 {
            924u16
        } else {
            901u16
        }] + byte_groups(bytes)
    } else {
        seq![if is_text_mode(mode) {
            913u16
        } else {
            901u16
        }] + byte_values(bytes)
    }
}

/// The mode that a byte segment leaves: byte compaction, but for the
/// shift from text compaction, which leaves the mode as it was.
pub open spec fn byte_end_mode(bytes: Seq<u8>, mode: EncodingMode) -> EncodingMode {
    if bytes.len() > 1 || !is_text_mode(mode) {
        EncodingMode::Byte
    } else {
        mode
    }
}

/// Bytes spell a number below `256^len`; six of them one below `2^48`.
pub proof fn lemma_be_value_bound(bytes: Seq<u8>)
    requires
        bytes.len() <= 6,
    ensures
        bytes.len() == 0 ==> be_value(bytes) == 0,
        bytes.len() == 1 ==> be_value(bytes) < 0x100,
        bytes.len() == 2 ==> be_value(bytes) < 0x1_0000,
        bytes.len() == 3 ==> be_value(bytes) < 0x100_0000,
        bytes.len() == 4 ==> be_value(bytes) < 0x1_0000_0000,
        bytes.len() == 5 ==> be_value(bytes) < 0x100_0000_0000,
        bytes.len() == 6 ==> be_value(bytes) < 0x1_0000_0000_0000,
    decreases bytes.len(),
{
    if bytes.len() > 0 {
        lemma_be_value_bound(bytes.drop_last());
    }
}

/// The body of a byte segment has five codewords for every six bytes and
/// one for each byte left over.
pub proof fn lemma_byte_groups_len(bytes: Seq<u8>)
    ensures
        byte_groups(bytes).len() == (bytes.len() / 6) * 5 + bytes.len() % 6,
    decreases bytes.len(),
{
    if bytes.len() >= 6 {
        lemma_byte_groups_len(bytes.skip(6));
        lemma_base900_shape(be_value(bytes.subrange(0, 6)), 5);
    }
}

/// Compacts `bytes` as a byte segment into `out` from the slot `at` on,
/// entered in the mode `mode`. Returns the slot after the last one
/// written, and the mode that the segment leaves.
pub fn compact_bytes(out: &mut [u16], at: usize, mode: EncodingMode, bytes: &[u8]) -> (end: (
    usize,
    EncodingMode,
))
    requires
        at + byte_codewords(bytes@, mode).len() <= old(out)@.len(),
    ensures
        end.0 == at + byte_codewords(bytes@, mode).len(),
        end.1 == byte_end_mode(bytes@, mode),
        final(out)@ == splice(old(out)@, at as int, byte_codewords(bytes@, mode)),
{
    let ghost before = out@;
    let ghost all = byte_codewords(bytes@, mode);
    let n = bytes.len();
    let size = out.len();
    let mut i: usize = at;
    let mut k: usize = 0;
    let mut left = mode;
    let ghost mut done: Seq<u16> = Seq::empty();
    let text = match mode {
        EncodingMode::Numeric => false,
        EncodingMode::Byte => false,
        _ => true,
    };
    if n > 1 {
        out[i] = if n % 6 == 0 {
            M_LATCH_BYTE_M6
        } else {
            M_LATCH_BYTE
        };
        left = EncodingMode::Byte;
        i = i + 1;
        proof {
            done = seq![all[0]];
            assert(out@ =~= splice(before, at as int, done));
            assert(bytes@.skip(0) =~= bytes@);
        }
        while n - k >= 6
            invariant
                k <= n,
                n == bytes@.len(),
                n > 1,
                size == out@.len(),
                i == at + done.len(),
                at + all.len() <= size,
                all == byte_codewords(bytes@, mode),
                done + byte_groups(bytes@.skip(k as int)) == all,
                out@ == splice(before, at as int, done),
            decreases n - k,
        {
            let ghost group = bytes@.subrange(k as int, k + 6);
            let ghost rest = bytes@.skip(k as int);
            proof {
                assert(rest.subrange(0, 6) =~= group);
                assert(rest.skip(6) =~= bytes@.skip(k + 6));
                lemma_base900_shape(be_value(group), 5);
                assert(byte_groups(rest) == base900(be_value(group), 5) + byte_groups(
                    bytes@.skip(k + 6),
                ));
                assert(group.subrange(0, 0) =~= Seq::<u8>::empty());
            }
            let mut value: u64 = 0;
            let mut t: usize = 0;
            while t < 6
                invariant
                    t <= 6,
                    k + 6 <= n,
                    n == bytes@.len(),
                    group == bytes@.subrange(k as int, k + 6),
                    value == be_value(group.subrange(0, t as int)),
                decreases 6 - t,
            {
                proof {
                    lemma_be_value_bound(group.subrange(0, t as int));
                    assert(group.subrange(0, t + 1).drop_last() =~= group.subrange(0, t as int));
                    assert(group.subrange(0, t + 1).last() == bytes@[k + t]);
                }
                value = value * 256 + bytes[k + t] as u64;
                t = t + 1;
            }
            proof {
                assert(group.subrange(0, 6) =~= group);
            }
            let ghost digits = base900(be_value(group), 5);
            write_base900(out, i, 5, value as u128);
            proof {
                assert(out@ =~= splice(before, at as int, done + digits));
                assert(done + digits + byte_groups(bytes@.skip(k + 6)) =~= all);
                done = done + digits;
            }
            i = i + 5;
            k = k + 6;
        }
    } else {
        if text {
            out[i] = M_SHIFT_BYTE;
        } else {
            out[i] = M_LATCH_BYTE;
            left = EncodingMode::Byte;
        }
        i = i + 1;
        proof {
            done = seq![all[0]];
            assert(out@ =~= splice(before, at as int, done));
            assert(bytes@.skip(0) =~= bytes@);
        }
    }
    proof {
        assert(byte_groups(bytes@.skip(k as int)) == byte_values(bytes@.skip(k as int)));
    }
    let ghost tail = byte_values(bytes@.skip(k as int));
    let ghost head = done;
    let start = k;
    while k < n
        invariant
            start <= k <= n,
            n == bytes@.len(),
            size == out@.len(),
            i == at + head.len() + (k - start),
            at + all.len() <= size,
            tail == byte_values(bytes@.skip(start as int)),
            head + tail == all,
            out@ == splice(before, at as int, head + tail.subrange(0, k - start)),
        decreases n - k,
    {
        out[i] = bytes[k] as u16;
        proof {
            assert(tail[k - start] == bytes@[k as int] as u16);
            assert(out@ =~= splice(before, at as int, head + tail.subrange(0, k + 1 - start)));
        }
        k = k + 1;
        i = i + 1;
    }
    proof {
        assert(tail.subrange(0, n - start) =~= tail);
    }
    (i, left)
}

/// The body of a byte segment holds codewords.
pub proof fn lemma_byte_groups_bounded(bytes: Seq<u8>)
    ensures
        all_codewords(byte_groups(bytes)),
    decreases bytes.len(),
{
    if bytes.len() >= 6 {
        lemma_byte_groups_bounded(bytes.skip(6));
        lemma_base900_shape(be_value(bytes.subrange(0, 6)), 5);
    }
}

/// The codewords of a byte segment are codewords.
pub proof fn lemma_byte_codewords_bounded(bytes: Seq<u8>, mode: EncodingMode)
    ensures
        all_codewords(byte_codewords(bytes, mode)),
{
    lemma_byte_groups_bounded(bytes);
}

} // verus!
