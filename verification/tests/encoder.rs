use pdf417::{EncodingMode, PDF417Encoder};

/// The last `len` digits of `n` in base 900, the most significant first.
fn base900(mut n: u128, len: usize) -> Vec<u16> {
    let mut digits = vec![0u16; len];
    for slot in digits.iter_mut().rev() {
        *slot = (n % 900) as u16;
        n /= 900;
    }
    assert_eq!(n, 0);
    digits
}

#[test]
fn new_reserves_slot_zero_of_a_regular_symbol() {
    let mut buffer = [7u16; 6];
    let encoder = PDF417Encoder::new(&mut buffer, false);
    assert_eq!(encoder.count(), 1);
    assert_eq!(encoder.capacity(), 6);
    assert_eq!(encoder.mode(), EncodingMode::Upper);
    assert_eq!(buffer, [7u16; 6]);
}

#[test]
fn new_starts_a_micro_symbol_at_slot_zero_in_byte_mode() {
    let mut buffer = [0u16; 6];
    let encoder = PDF417Encoder::new(&mut buffer, true);
    assert_eq!(encoder.count(), 0);
    assert_eq!(encoder.capacity(), 6);
    assert_eq!(encoder.mode(), EncodingMode::Byte);
}

#[test]
fn append_num_zero_is_the_leading_one_alone() {
    let mut buffer = [0u16; 3];
    let encoder = PDF417Encoder::new(&mut buffer, false).append_num(0);
    assert_eq!(encoder.count(), 3);
    assert_eq!(encoder.mode(), EncodingMode::Numeric);
    assert_eq!(buffer, [0, 902, 1]);
}

#[test]
fn append_num_takes_a_codeword_for_every_three_digits() {
    let cases: [(u64, usize); 8] = [
        (1, 1),
        (9, 1),
        (99, 1),
        (100, 2),
        (999, 2),
        (99_999, 2),
        (100_000, 3),
        (999_999_999, 4),
    ];
    for (n, len) in cases {
        let mut buffer = [0u16; 10];
        let encoder = PDF417Encoder::new(&mut buffer, false).append_num(n);
        assert_eq!(encoder.count(), 2 + len, "number {n}");
        let digits = n.to_string().len() as u32;
        let expected = base900(10u128.pow(digits) + n as u128, len);
        assert_eq!(buffer[1], 902);
        assert_eq!(&buffer[2..2 + len], &expected[..], "number {n}");
    }
}

#[test]
fn append_num_holds_the_largest_integer() {
    let mut buffer = [0u16; 9];
    let encoder = PDF417Encoder::new(&mut buffer, false).append_num(u64::MAX);
    assert_eq!(encoder.count(), 9);
    let expected = base900(10u128.pow(20) + u64::MAX as u128, 7);
    assert_eq!(buffer[1], 902);
    assert_eq!(&buffer[2..], &expected[..]);
    assert_eq!(buffer, [0, 902, 222, 790, 541, 32, 347, 535, 115]);
}

#[test]
fn append_num_twice_latches_once() {
    let mut buffer = [0u16; 4];
    let encoder = PDF417Encoder::new(&mut buffer, false).append_num(42).append_num(7);
    assert_eq!(encoder.count(), 4);
    assert_eq!(buffer, [0, 902, 142, 17]);
}

#[test]
fn append_bytes_single_byte_is_shifted_in_from_text() {
    let mut buffer = [0u16; 3];
    let encoder = PDF417Encoder::new(&mut buffer, false).append_bytes(&[0xAB]);
    assert_eq!(encoder.count(), 3);
    assert_eq!(encoder.mode(), EncodingMode::Upper);
    assert_eq!(buffer, [0, 913, 0xAB]);
}

#[test]
fn append_bytes_single_byte_is_latched_in_from_byte_mode() {
    let mut buffer = [0u16; 2];
    let encoder = PDF417Encoder::new(&mut buffer, true).append_bytes(&[0xAB]);
    assert_eq!(encoder.count(), 2);
    assert_eq!(encoder.mode(), EncodingMode::Byte);
    assert_eq!(buffer, [901, 0xAB]);
}

#[test]
fn append_bytes_of_nothing_is_the_switch_alone() {
    let mut buffer = [0u16; 2];
    let encoder = PDF417Encoder::new(&mut buffer, false).append_bytes(&[]);
    assert_eq!(encoder.count(), 2);
    assert_eq!(buffer, [0, 913]);
}

#[test]
fn append_bytes_packs_six_bytes_into_five_codewords() {
    let bytes: [u8; 13] = [1, 2, 3, 4, 5, 6, 250, 251, 252, 253, 254, 255, 9];
    let mut buffer = [0u16; 13];
    let encoder = PDF417Encoder::new(&mut buffer, false).append_bytes(&bytes);
    assert_eq!(encoder.count(), 13);
    assert_eq!(encoder.mode(), EncodingMode::Byte);
    let first = base900(0x0102_0304_0506, 5);
    let second = base900(0xFAFB_FCFD_FEFF, 5);
    assert_eq!(buffer[1], 901);
    assert_eq!(&buffer[2..7], &first[..]);
    assert_eq!(&buffer[7..12], &second[..]);
    assert_eq!(buffer[12], 9);
}

#[test]
fn append_bytes_of_twelve_bytes_uses_the_latch_of_multiples_of_six() {
    let bytes = [0xFFu8; 12];
    let mut buffer = [0u16; 12];
    let encoder = PDF417Encoder::new(&mut buffer, false).append_bytes(&bytes);
    assert_eq!(encoder.count(), 12);
    let group = base900(0xFFFF_FFFF_FFFF, 5);
    assert_eq!(group, [429, 11, 71, 222, 855]);
    assert_eq!(buffer[1], 924);
    assert_eq!(&buffer[2..7], &group[..]);
    assert_eq!(&buffer[7..12], &group[..]);
}

#[test]
fn append_utf8_announces_the_code_page() {
    let mut buffer = [0u16; 6];
    let encoder = PDF417Encoder::new(&mut buffer, false).append_utf8("é");
    assert_eq!(encoder.count(), 6);
    assert_eq!(encoder.mode(), EncodingMode::Byte);
    assert_eq!(buffer, [0, 927, 26, 901, 0xC3, 0xA9]);
}

#[test]
fn append_codeword_and_raw_write_as_given() {
    let mut buffer = [0u16; 6];
    let encoder =
        PDF417Encoder::new(&mut buffer, false).append_codeword(925).append_raw(&[1, 2, 3]);
    assert_eq!(encoder.count(), 5);
    assert_eq!(encoder.mode(), EncodingMode::Upper);
    assert_eq!(buffer, [0, 925, 1, 2, 3, 0]);
}

#[test]
fn append_ascii_after_numbers_latches_back_to_text() {
    let mut buffer = [0u16; 5];
    let encoder = PDF417Encoder::new(&mut buffer, false).append_num(42).append_ascii("AB");
    assert_eq!(encoder.count(), 5);
    assert_eq!(encoder.mode(), EncodingMode::Upper);
    assert_eq!(buffer, [0, 902, 142, 900, 0 * 30 + 1]);
}

#[test]
fn append_ascii_keeps_the_sub_mode_between_segments() {
    let mut buffer = [0u16; 4];
    let encoder = PDF417Encoder::new(&mut buffer, false).append_ascii("abc").append_ascii("de");
    assert_eq!(encoder.count(), 4);
    assert_eq!(encoder.mode(), EncodingMode::Lower);
    assert_eq!(buffer, [0, 27 * 30 + 0, 1 * 30 + 2, 3 * 30 + 4]);
}

#[test]
fn append_ascii_pads_a_lone_half_in_every_segment() {
    let mut buffer = [0u16; 5];
    let encoder = PDF417Encoder::new(&mut buffer, false).append_ascii("ab").append_ascii("c");
    assert_eq!(encoder.count(), 4);
    assert_eq!(buffer, [0, 27 * 30 + 0, 1 * 30 + 29, 2 * 30 + 29, 0]);
}

#[test]
fn append_ascii_of_nothing_writes_nothing() {
    let mut buffer = [5u16; 2];
    let encoder = PDF417Encoder::new(&mut buffer, false).append_ascii("");
    assert_eq!(encoder.count(), 1);
    assert_eq!(buffer, [5, 5]);
}

#[test]
fn append_ascii_ends_in_numeric_mode_after_a_long_run() {
    let mut buffer = [0u16; 7];
    let encoder = PDF417Encoder::new(&mut buffer, false).append_ascii("12345678901234");
    assert_eq!(encoder.count(), 7);
    assert_eq!(encoder.mode(), EncodingMode::Numeric);
    let expected = base900(10u128.pow(14) + 12_345_678_901_234, 5);
    assert_eq!(buffer[1], 902);
    assert_eq!(&buffer[2..], &expected[..]);
}

#[test]
fn append_ascii_sends_thirteen_digits_through_the_mixed_sub_mode() {
    let mut buffer = [0u16; 8];
    let encoder = PDF417Encoder::new(&mut buffer, false).append_ascii("1234567890123");
    assert_eq!(encoder.count(), 8);
    assert_eq!(encoder.mode(), EncodingMode::Mixed);
    assert_eq!(
        buffer,
        [
            0,
            28 * 30 + 1,
            2 * 30 + 3,
            4 * 30 + 5,
            6 * 30 + 7,
            8 * 30 + 9,
            0 * 30 + 1,
            2 * 30 + 3
        ]
    );
}

#[test]
fn append_ascii_keeps_leading_zeros_of_a_number() {
    let mut buffer = [0u16; 7];
    let encoder = PDF417Encoder::new(&mut buffer, false).append_ascii("00000000000001");
    assert_eq!(encoder.count(), 7);
    let expected = base900(10u128.pow(14) + 1, 5);
    assert_eq!(&buffer[2..], &expected[..]);
}

#[test]
fn append_ascii_shifts_an_upper_case_letter_before_lower_case_or_space() {
    // "aBc": shift 27 before B, the lower-case sub-mode stays.
    let mut buffer = [0u16; 4];
    PDF417Encoder::new(&mut buffer, false).append_ascii("aBc");
    assert_eq!(buffer, [0, 27 * 30 + 0, 27 * 30 + 1, 2 * 30 + 29]);
    // "aB c": the same before a space.
    let mut buffer = [0u16; 4];
    let encoder = PDF417Encoder::new(&mut buffer, false).append_ascii("aB c");
    assert_eq!(encoder.mode(), EncodingMode::Lower);
    assert_eq!(buffer, [0, 27 * 30 + 0, 27 * 30 + 1, 26 * 30 + 2]);
    // "aBC": latch to the upper-case sub-mode with 29, 29.
    let mut buffer = [0u16; 4];
    let encoder = PDF417Encoder::new(&mut buffer, false).append_ascii("aBC");
    assert_eq!(encoder.mode(), EncodingMode::Upper);
    assert_eq!(buffer, [0, 27 * 30 + 0, 29 * 30 + 29, 1 * 30 + 2]);
}

#[test]
fn append_ascii_latches_to_punctuation_for_three_in_a_row() {
    // "a;<>": 28 (mixed), 25 (punctuation), then the three values.
    let mut buffer = [0u16; 5];
    let encoder = PDF417Encoder::new(&mut buffer, false).append_ascii("a;<>");
    assert_eq!(encoder.mode(), EncodingMode::Punctuation);
    assert_eq!(buffer, [0, 27 * 30 + 0, 28 * 30 + 25, 0 * 30 + 1, 2 * 30 + 29]);
    // "a;<b": two only, each shifted in with 29.
    let mut buffer = [0u16; 5];
    let encoder = PDF417Encoder::new(&mut buffer, false).append_ascii("a;<b");
    assert_eq!(encoder.mode(), EncodingMode::Lower);
    assert_eq!(buffer, [0, 27 * 30 + 0, 29 * 30 + 0, 29 * 30 + 1, 1 * 30 + 29]);
}

#[test]
fn append_ascii_leaves_punctuation_for_letters_and_space() {
    // From punctuation: 29 to upper case before a space, 29 27 before a
    // lower-case letter, 29 before an upper-case letter.
    let mut buffer = [0u16; 9];
    let encoder = PDF417Encoder::new(&mut buffer, false).append_ascii(";<> ;<>a");
    assert_eq!(encoder.count(), 9);
    assert_eq!(encoder.mode(), EncodingMode::Lower);
    assert_eq!(
        buffer,
        [
            0,
            28 * 30 + 25,
            0 * 30 + 1,
            2 * 30 + 29,
            26 * 30 + 28,
            25 * 30 + 0,
            1 * 30 + 2,
            29 * 30 + 27,
            0 * 30 + 29,
        ]
    );
    let mut buffer = [0u16; 5];
    let encoder = PDF417Encoder::new(&mut buffer, false).append_ascii(";<>A");
    assert_eq!(encoder.mode(), EncodingMode::Upper);
    assert_eq!(buffer, [0, 28 * 30 + 25, 0 * 30 + 1, 2 * 30 + 29, 0 * 30 + 29]);
}

#[test]
fn append_ascii_stays_in_punctuation_for_a_shared_character() {
    // ',' has the value 13 in both sub-modes; '#' is mixed alone.
    let mut buffer = [0u16; 6];
    let encoder = PDF417Encoder::new(&mut buffer, false).append_ascii(";<>,#");
    assert_eq!(encoder.count(), 6);
    assert_eq!(encoder.mode(), EncodingMode::Mixed);
    assert_eq!(
        buffer,
        [0, 28 * 30 + 25, 0 * 30 + 1, 2 * 30 + 13, 29 * 30 + 28, 15 * 30 + 29]
    );
}

#[test]
fn append_ascii_takes_two_slots_for_an_unknown_byte() {
    let mut buffer = [0u16; 5];
    let encoder = PDF417Encoder::new(&mut buffer, false).append_ascii("A\u{7f}B");
    assert_eq!(encoder.count(), 5);
    assert_eq!(buffer, [0, 0 * 30 + 29, 913, 0x7F, 1 * 30 + 29]);
}

#[test]
fn append_ascii_splits_a_run_of_digits_after_44() {
    let digits = "1".repeat(45);
    let mut buffer = [0u16; 18];
    let encoder = PDF417Encoder::new(&mut buffer, false).append_ascii(&digits);
    assert_eq!(encoder.count(), 18);
    assert_eq!(buffer[1], 902);
    // 44 digits take 15 codewords, of which the first carries the leading one.
    assert!(buffer[2] >= 1);
    // The digit left over is a block of its own: 10 + 1.
    assert_eq!(buffer[17], 11);
}

#[test]
fn available_counts_what_the_correction_leaves() {
    let mut buffer = [0u16; 40];
    let encoder = PDF417Encoder::new(&mut buffer, false).append_ascii("Test");
    assert_eq!(encoder.available(0), 40 - 2 - 4);
    assert_eq!(encoder.available(3), 40 - 16 - 4);
    let mut buffer = [0u16; 40];
    let encoder = PDF417Encoder::new(&mut buffer, true).append_codeword(1);
    assert_eq!(encoder.available(0), 40 - 7 - 1);
    assert_eq!(encoder.available(6), 40 - 8 - 1);
}

#[test]
fn fit_ecc_takes_the_highest_level_that_finds_room() {
    let cases: [(usize, Option<u8>); 10] = [
        (1, None),
        (2, None),
        (3, Some(0)),
        (4, Some(0)),
        (5, Some(1)),
        (8, Some(1)),
        (9, Some(2)),
        (512, Some(7)),
        (513, Some(8)),
        (2000, Some(8)),
    ];
    for (size, expected) in cases {
        let mut buffer = vec![0u16; size];
        let encoder = PDF417Encoder::new(&mut buffer, false);
        assert_eq!(encoder.fit_ecc(), expected, "buffer of {size}");
    }
}

#[test]
fn fit_ecc_takes_the_smallest_variant_that_holds_the_data() {
    let cases: [(usize, Option<u8>); 8] = [
        (0, Some(0)),
        (4, Some(0)),
        (5, Some(13)),
        (7, Some(1)),
        (8, Some(6)),
        (24, Some(9)),
        (126, Some(33)),
        (127, None),
    ];
    for (used, expected) in cases {
        let mut buffer = vec![0u16; 200];
        let data = vec![1u16; used];
        let encoder = PDF417Encoder::new(&mut buffer, true).append_raw(&data);
        assert_eq!(encoder.fit_ecc(), expected, "{used} codewords");
    }
}

#[test]
fn seal_pads_and_writes_the_length() {
    let mut buffer = [0u16; 8];
    let sealed = PDF417Encoder::new(&mut buffer, false).append_ascii("Test").seal(0);
    assert_eq!(sealed.len(), 8);
    assert_eq!(&sealed[..6], &[6, 19 * 30 + 27, 4 * 30 + 18, 19 * 30 + 29, 900, 900]);
    let mut again = buffer;
    pdf417::ecc::generate_ecc(&mut again, 0);
    assert_eq!(again, buffer);
}

#[test]
fn seal_of_an_exactly_sized_buffer_has_no_padding() {
    let mut buffer = [0u16; 6];
    PDF417Encoder::new(&mut buffer, false).append_ascii("Test").seal(0);
    assert_eq!(buffer, [4, 19 * 30 + 27, 4 * 30 + 18, 19 * 30 + 29, 600, 139]);
}

#[test]
fn fit_seal_finds_and_seals() {
    let mut buffer = [0u16; 12];
    let found = PDF417Encoder::new(&mut buffer, false).append_ascii("Test").fit_seal();
    let (level, sealed) = found.expect("eight slots are free");
    assert_eq!(level, 2);
    assert_eq!(sealed.len(), 12);
    assert_eq!(&sealed[..4], &[4, 19 * 30 + 27, 4 * 30 + 18, 19 * 30 + 29]);
    let mut expected = [4u16, 19 * 30 + 27, 4 * 30 + 18, 19 * 30 + 29, 0, 0, 0, 0, 0, 0, 0, 0];
    pdf417::ecc::generate_ecc(&mut expected, 2);
    assert_eq!(buffer, expected);
}

#[test]
fn fit_seal_without_room_leaves_the_buffer() {
    let mut buffer = [0u16; 5];
    let found = PDF417Encoder::new(&mut buffer, false).append_ascii("Test").fit_seal();
    assert!(found.is_none());
    assert_eq!(buffer, [0, 19 * 30 + 27, 4 * 30 + 18, 19 * 30 + 29, 0]);
}

#[test]
fn fit_seal_of_a_micro_symbol_needs_room_for_the_variant() {
    // Four codewords call for variant 0, which has seven correction codewords.
    let mut buffer = [0u16; 11];
    let found = PDF417Encoder::new(&mut buffer, true).append_raw(&[1, 2, 3, 4]).fit_seal();
    let (variant, sealed) = found.expect("variant 0 has eleven codewords");
    assert_eq!(variant, 0);
    assert_eq!(&sealed[..4], &[1, 2, 3, 4]);
    let mut expected = [1u16, 2, 3, 4, 0, 0, 0, 0, 0, 0, 0];
    pdf417::ecc::generate_micro_ecc(&mut expected, 7, 0);
    assert_eq!(buffer, expected);

    let mut buffer = [0u16; 10];
    let found = PDF417Encoder::new(&mut buffer, true).append_raw(&[1, 2, 3, 4]).fit_seal();
    assert!(found.is_none());
    assert_eq!(buffer, [1, 2, 3, 4, 0, 0, 0, 0, 0, 0]);
}
