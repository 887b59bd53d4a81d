use pdf417::bytes::compact_bytes;
use pdf417::high_level::fill_padding;
use pdf417::text::{
    compact_text, find, in_punct_set, scan_digits, Packer, MIXED_CHAR_SET, PUNC_CHAR_SET,
};
use pdf417::EncodingMode;

#[test]
fn character_sets_are_those_of_the_sub_modes() {
    assert_eq!(&MIXED_CHAR_SET, b"&\r\t,:#-.$/+%*=^");
    assert_eq!(&PUNC_CHAR_SET, b";<>@[\\]_`~!\r\t,:\n-.$/\"|*()?{}'");
    // The characters that both sets hold have the same value in both.
    for (p, c) in MIXED_CHAR_SET.iter().enumerate() {
        if let Some(q) = find(&PUNC_CHAR_SET, *c) {
            if (1..=4).contains(&p) || (6..=9).contains(&p) {
                assert_eq!(q, p + 10);
            } else {
                assert_eq!(*c, b'*');
            }
        }
    }
}

#[test]
fn find_gives_the_first_index() {
    assert_eq!(find(b"abcabc", b'a'), Some(0));
    assert_eq!(find(b"abcabc", b'c'), Some(2));
    assert_eq!(find(b"abcabc", b'd'), None);
    assert_eq!(find(b"", b'a'), None);
    assert_eq!(find(&MIXED_CHAR_SET, b'^'), Some(14));
    assert_eq!(find(&PUNC_CHAR_SET, b'\''), Some(28));
    assert_eq!(find(&PUNC_CHAR_SET, b';'), Some(0));
    assert!(in_punct_set(b'!'));
    assert!(in_punct_set(b','));
    assert!(!in_punct_set(b'#'));
    assert!(!in_punct_set(b'a'));
    assert!(!in_punct_set(b' '));
}

#[test]
fn scan_digits_measures_a_block() {
    assert_eq!(scan_digits(b"", 0), 0);
    assert_eq!(scan_digits(b"abc", 1), 0);
    assert_eq!(scan_digits(b"a123b", 1), 3);
    assert_eq!(scan_digits(b"a123", 1), 3);
    assert_eq!(scan_digits(b"a123", 4), 0);
    assert_eq!(scan_digits(b"0/9:", 0), 1);
    assert_eq!(scan_digits(b"0/9:", 2), 1);
    let long = [b'7'; 100];
    assert_eq!(scan_digits(&long, 0), 44);
    assert_eq!(scan_digits(&long, 56), 44);
    assert_eq!(scan_digits(&long, 57), 43);
}

#[test]
fn packer_pairs_halves_and_pads_before_whole_slots() {
    let mut out = [0u16; 6];
    let mut packer = Packer::new(1);
    packer.push_narrow(&mut out, 3);
    assert_eq!((packer.cursor, packer.pending), (1, Some(3)));
    assert_eq!(out, [0; 6]);
    packer.push_narrow(&mut out, 4);
    assert_eq!((packer.cursor, packer.pending), (2, None));
    assert_eq!(out, [0, 3 * 30 + 4, 0, 0, 0, 0]);
    packer.push_narrow(&mut out, 5);
    packer.push_wide(&mut out, 913);
    assert_eq!((packer.cursor, packer.pending), (4, None));
    assert_eq!(out, [0, 3 * 30 + 4, 5 * 30 + 29, 913, 0, 0]);
    packer.push_wide(&mut out, 7);
    assert_eq!((packer.cursor, packer.pending), (5, None));
    packer.flush(&mut out);
    assert_eq!((packer.cursor, packer.pending), (5, None));
    packer.push_narrow(&mut out, 29);
    packer.flush(&mut out);
    assert_eq!((packer.cursor, packer.pending), (6, None));
    assert_eq!(out, [0, 3 * 30 + 4, 5 * 30 + 29, 913, 7, 29 * 30 + 29]);
}

#[test]
fn compact_text_writes_from_a_slot_on() {
    let mut out = [7u16; 6];
    let (end, mode) = compact_text(&mut out, 2, EncodingMode::Upper, b"Test");
    assert_eq!(end, 5);
    assert_eq!(mode, EncodingMode::Lower);
    assert_eq!(out, [7, 7, 19 * 30 + 27, 4 * 30 + 18, 19 * 30 + 29, 7]);

    // Entered in the lower-case sub-mode, no latch is needed.
    let mut out = [7u16; 3];
    let (end, mode) = compact_text(&mut out, 0, EncodingMode::Lower, b"test");
    assert_eq!((end, mode), (2, EncodingMode::Lower));
    assert_eq!(out, [19 * 30 + 4, 18 * 30 + 19, 7]);

    // Entered in the mixed sub-mode, digits need none either.
    let mut out = [7u16; 2];
    let (end, mode) = compact_text(&mut out, 0, EncodingMode::Mixed, b"12");
    assert_eq!((end, mode), (1, EncodingMode::Mixed));
    assert_eq!(out, [1 * 30 + 2, 7]);

    // Entered in the punctuation sub-mode.
    let mut out = [7u16; 3];
    let (end, mode) = compact_text(&mut out, 0, EncodingMode::Punctuation, b"!5a");
    assert_eq!((end, mode), (3, EncodingMode::Lower));
    assert_eq!(out, [10 * 30 + 29, 28 * 30 + 5, 27 * 30 + 0]);
}

#[test]
fn compact_text_takes_no_more_than_two_slots_for_a_byte() {
    let inputs: [&[u8]; 6] = [
        b"\x01\x02\x03",
        b"a\x01a\x01a",
        b"aBaBaB",
        b";a;a;a",
        b"12345678901234a",
        b"0a0a0a",
    ];
    for input in inputs {
        for mode in [
            EncodingMode::Upper,
            EncodingMode::Lower,
            EncodingMode::Mixed,
            EncodingMode::Punctuation,
        ] {
            let mut out = vec![0u16; 2 * input.len()];
            let (end, _) = compact_text(&mut out, 0, mode, input);
            assert!(end <= 2 * input.len());
            assert!(out[..end].iter().all(|&cw| cw < 929));
        }
    }
    // Bytes that text compaction does not know take two slots each.
    let mut out = [0u16; 6];
    let (end, _) = compact_text(&mut out, 0, EncodingMode::Upper, b"\x01\x02\x03");
    assert_eq!(end, 6);
    assert_eq!(out, [913, 1, 913, 2, 913, 3]);
}

#[test]
fn compact_bytes_writes_from_a_slot_on() {
    let mut out = [7u16; 9];
    let (end, mode) = compact_bytes(&mut out, 1, EncodingMode::Lower, b"alcool!");
    assert_eq!(end, 8);
    assert_eq!(mode, EncodingMode::Byte);
    assert_eq!(out, [7, 901, 163, 238, 432, 766, 244, 33, 7]);

    let mut out = [7u16; 3];
    let (end, mode) = compact_bytes(&mut out, 0, EncodingMode::Mixed, b"\xff");
    assert_eq!((end, mode), (2, EncodingMode::Mixed));
    assert_eq!(out, [913, 255, 7]);

    let mut out = [7u16; 3];
    let (end, mode) = compact_bytes(&mut out, 0, EncodingMode::Numeric, b"\xff");
    assert_eq!((end, mode), (2, EncodingMode::Byte));
    assert_eq!(out, [901, 255, 7]);
}

#[test]
fn fill_padding_pads_a_range() {
    let mut out = [1u16; 5];
    fill_padding(&mut out, 1, 4);
    assert_eq!(out, [1, 900, 900, 900, 1]);
    fill_padding(&mut out, 4, 4);
    assert_eq!(out, [1, 900, 900, 900, 1]);
    // Nothing lies from 3 up to 2.
    let mut out = [1u16; 5];
    fill_padding(&mut out, 3, 2);
    assert_eq!(out, [1; 5]);
    fill_padding(&mut out, 0, 5);
    assert_eq!(out, [900; 5]);
}
