use pdf417::builder::check_codewords;
use pdf417::generators::pdf417::{END_PATTERN_BITS, START_PATTERN_BITS};
use pdf417::tables::M_PDF417_VARIANTS;
use pdf417::{
    end_pattern, get_variant, m_pdf417_height, m_pdf417_width, pdf417_height, pdf417_width,
    start_pattern, Bitfield, ClusterTable, Kind, MicroTables, PDF417Render, PDF417Row, Row,
    Variant, PDF417,
};

/// A table of made-up patterns, each entry different from its neighbours.
fn sample_clusters() -> ClusterTable {
    let patterns: Vec<u16> = (0..2787u32).map(|i| ((i * 7919 + 13) % 65536) as u16).collect();
    ClusterTable::new(patterns).expect("2787 entries")
}

fn sample_pattern(cluster: usize, codeword: usize) -> u32 {
    0x10000 + ((cluster * 929 + codeword) as u32 * 7919 + 13) % 65536
}

/// Made-up tables for MicroPDF417.
fn sample_micro() -> MicroTables {
    let mut rap = vec![0u8; 136];
    for v in 0..34 {
        rap[v] = (v * 3 % 52 + 1) as u8;
        rap[34 + v] = if M_PDF417_VARIANTS[v] >= 3 { (v * 5 % 52 + 1) as u8 } else { 0 };
        rap[68 + v] = (v * 7 % 52 + 1) as u8;
        rap[102 + v] = (v % 3) as u8;
    }
    let side: Vec<u16> = (0..52u32).map(|i| ((i * 37 + 5) % 1024) as u16).collect();
    let center: Vec<u16> = (0..52u32).map(|i| ((i * 101 + 9) % 1024) as u16).collect();
    MicroTables::new(rap, side, center).expect("tables in range")
}

fn bits(value: u32, count: u32) -> Vec<bool> {
    (0..count).rev().map(|k| (value >> k) & 1 == 1).collect()
}

fn collect(mut field: Bitfield) -> Vec<bool> {
    let mut out = Vec::new();
    while let Some(bit) = field.next() {
        out.push(bit);
    }
    out
}

fn drain(render: &PDF417Render) -> Vec<bool> {
    let mut stream = render.bits();
    let mut out = Vec::new();
    while let Some(bit) = stream.next() {
        out.push(bit);
    }
    assert_eq!(stream.next(), None);
    out
}

/// The modules of a row of a regular symbol, built field by field.
fn regular_row(
    codewords: &[u16],
    rows: usize,
    cols: usize,
    level: usize,
    row: usize,
    truncated: bool,
) -> Vec<bool> {
    let rows_val = (rows - 1) / 3;
    let cols_val = cols - 1;
    let level_val = level * 3 + (rows - 1) % 3;
    let group = (row / 3) * 30;
    let cluster = row % 3;
    let (left, right) = match cluster {
        0 => (rows_val, cols_val),
        1 => (level_val, rows_val),
        _ => (cols_val, level_val),
    };
    let mut out = bits(0b11111111010101000, 17);
    out.extend(bits(sample_pattern(cluster, left + group), 17));
    for &cw in &codewords[row * cols..(row + 1) * cols] {
        out.extend(bits(sample_pattern(cluster, cw as usize), 17));
    }
    if truncated {
        out.push(true);
    } else {
        out.extend(bits(sample_pattern(cluster, right + group), 17));
        out.extend(bits(0b111111101000101001, 18));
    }
    out
}

fn sample_codewords(len: usize) -> Vec<u16> {
    (0..len).map(|i| ((i * 131 + 17) % 929) as u16).collect()
}

#[test]
fn bitfield_hands_out_its_bits_from_the_most_significant() {
    let mut field = Bitfield::new(0b1011, 4);
    assert_eq!(field.size(), 4);
    assert_eq!(field.bits(), 0b1011);
    assert_eq!(field.as_pair(), (0b1011, 4));
    assert_eq!(field.next(), Some(true));
    assert_eq!(field.next(), Some(false));
    assert_eq!(field.size(), 2);
    assert_eq!(field.bits(), 0b1011);
    assert_eq!(field.next(), Some(true));
    assert_eq!(field.next(), Some(true));
    assert_eq!(field.next(), None);
    assert_eq!(field.next(), None);
    assert_eq!(field.size(), 0);
}

#[test]
fn bitfield_of_no_bits_and_of_all_bits() {
    let mut empty = Bitfield::new(0, 0);
    assert_eq!(empty.size(), 0);
    assert_eq!(empty.next(), None);
    let full = Bitfield::new(0xFF_FFFF, 24);
    assert_eq!(collect(full), vec![true; 24]);
    let leading_zeros = Bitfield::new(1, 24);
    let mut expected = vec![false; 23];
    expected.push(true);
    assert_eq!(collect(leading_zeros), expected);
}

#[test]
fn start_and_end_patterns_are_those_of_the_symbology() {
    assert_eq!(START_PATTERN_BITS, 0b11111111010101000);
    assert_eq!(END_PATTERN_BITS, 0b111111101000101001);
    assert_eq!(start_pattern().as_pair(), (0b11111111010101000, 17));
    assert_eq!(end_pattern().as_pair(), (0b111111101000101001, 18));
    assert_eq!(collect(start_pattern()), bits(0b11111111010101000, 17));
    assert_eq!(collect(end_pattern()), bits(0b111111101000101001, 18));
}

#[test]
fn prepare_gives_the_values_of_the_row_indicators() {
    assert_eq!(PDF417Row::prepare((3, 1), 0), (0, 0, 2));
    assert_eq!(PDF417Row::prepare((90, 30), 8), (29, 29, 26));
    assert_eq!(PDF417Row::prepare((10, 7), 4), (3, 6, 12));
}

#[test]
fn row_emits_start_left_data_right_end() {
    let clusters = sample_clusters();
    let codewords = [5u16, 900, 928];
    for row in [0u8, 1, 2, 3, 89] {
        let cluster = row as usize % 3;
        let group = (row as usize / 3) * 30;
        let (left, right) = match cluster {
            0 => (3, 6),
            1 => (12, 3),
            _ => (6, 12),
        };
        let mut full = PDF417Row::new(&codewords, row, (3, 6, 12), false, &clusters);
        let fields: Vec<(u32, u32)> =
            std::iter::from_fn(|| full.next()).map(|f| f.as_pair()).collect();
        assert_eq!(
            fields,
            vec![
                (0b11111111010101000, 17),
                (sample_pattern(cluster, left + group), 17),
                (sample_pattern(cluster, 5), 17),
                (sample_pattern(cluster, 900), 17),
                (sample_pattern(cluster, 928), 17),
                (sample_pattern(cluster, right + group), 17),
                (0b111111101000101001, 18),
            ],
            "row {row}"
        );
        assert!(full.next().is_none());

        let mut short = PDF417Row::new(&codewords, row, (3, 6, 12), true, &clusters);
        let fields: Vec<(u32, u32)> =
            std::iter::from_fn(|| short.next()).map(|f| f.as_pair()).collect();
        assert_eq!(
            fields,
            vec![
                (0b11111111010101000, 17),
                (sample_pattern(cluster, left + group), 17),
                (sample_pattern(cluster, 5), 17),
                (sample_pattern(cluster, 900), 17),
                (sample_pattern(cluster, 928), 17),
                (1, 1),
            ],
            "row {row}"
        );
    }
}

#[test]
fn symbol_reports_what_it_was_made_with() {
    let clusters = sample_clusters();
    let codewords = sample_codewords(12);
    let symbol = PDF417::new(&codewords, 4, 3, 2, &clusters);
    assert_eq!(symbol.rows(), 4);
    assert_eq!(symbol.cols(), 3);
    assert_eq!(symbol.level(), 2);
    assert_eq!(symbol.kind(), Kind::Full);
    assert_eq!(symbol.width(), 17 + 17 + 3 * 17 + 17 + 18);
    let symbol = PDF417::new_truncated(&codewords, 4, 3, 2, &clusters);
    assert_eq!(symbol.kind(), Kind::Truncated);
    assert_eq!(symbol.width(), 17 + 17 + 3 * 17 + 1);
}

#[test]
fn check_codewords_finds_what_is_no_codeword() {
    assert!(check_codewords(&[]));
    assert!(check_codewords(&[0, 928, 900]));
    assert!(!check_codewords(&[0, 929]));
    assert!(!check_codewords(&[65535, 0]));
}

#[test]
fn iter_hands_out_every_row() {
    let clusters = sample_clusters();
    let codewords = sample_codewords(10);
    let symbol = PDF417::new(&codewords, 5, 2, 1, &clusters);
    let mut rows = symbol.iter();
    let mut seen = 0;
    while let Some(mut row) = rows.next() {
        let mut modules = Vec::new();
        while let Some(field) = row.next() {
            modules.extend(collect(field));
        }
        assert_eq!(modules, regular_row(&codewords, 5, 2, 1, seen, false), "row {seen}");
        assert!(matches!(row, Row::Regular(_)));
        seen += 1;
    }
    assert_eq!(seen, 5);
    assert!(rows.next().is_none());
}

#[test]
fn bits_of_a_symbol_are_its_rows_one_after_the_other() {
    let clusters = sample_clusters();
    let codewords = sample_codewords(6);
    let symbol = PDF417::new(&codewords, 3, 2, 0, &clusters);
    let mut stream = symbol.bits();
    let mut modules = Vec::new();
    while let Some(bit) = stream.next() {
        modules.push(bit);
    }
    let mut expected = Vec::new();
    for row in 0..3 {
        expected.extend(regular_row(&codewords, 3, 2, 0, row, false));
    }
    assert_eq!(modules, expected);
    assert_eq!(modules.len(), pdf417_width(2, 1, false) * pdf417_height(3, 1));
}

#[test]
fn render_starts_at_the_scale_of_the_form() {
    let clusters = sample_clusters();
    let micro = sample_micro();
    let codewords = sample_codewords(9);
    let render = PDF417::new(&codewords, 3, 3, 0, &clusters).render();
    assert_eq!(render.scale(), (1, 1));
    assert!(!render.inverted());
    let variant = get_variant(11, 1).expect("a variant of 11 rows");
    let codewords = sample_codewords(11);
    let render = PDF417::from_variant(&codewords, variant, &clusters, &micro).render();
    assert_eq!(render.scale(), (1, 2));
    assert_eq!(render.width(), m_pdf417_width(1, 1) as u32);
    assert_eq!(render.height(), m_pdf417_height(11, 2) as u32);
}

#[test]
fn width_and_height_are_those_of_what_is_drawn() {
    let clusters = sample_clusters();
    for (rows, cols, level) in [(3u8, 1u8, 0u8), (4, 2, 3), (7, 5, 8), (90, 30, 8)] {
        let codewords = sample_codewords(rows as usize * cols as usize);
        for (sx, sy) in [(1u16, 1u16), (2, 1), (1, 3), (3, 2)] {
            if rows > 10 && (sx, sy) != (1u16, 1u16) {
                continue;
            }
            let full =
                PDF417::new(&codewords, rows, cols, level, &clusters).render().set_scale((sx, sy));
            let short = PDF417::new_truncated(&codewords, rows, cols, level, &clusters)
                .render()
                .set_scale((sx, sy));
            assert_eq!(full.width() as usize, pdf417_width(cols, sx, false));
            assert_eq!(full.height() as usize, pdf417_height(rows, sy));
            assert_eq!(short.width() as usize, pdf417_width(cols, sx, true));
            assert_eq!(short.height() as usize, pdf417_height(rows, sy));
            assert_eq!(full.width() - short.width(), 34 * sx as u32);
            assert_eq!(drain(&full).len(), (full.width() * full.height()) as usize);
            assert_eq!(drain(&short).len(), (short.width() * short.height()) as usize);
        }
    }
}

#[test]
fn width_formulas() {
    assert_eq!(pdf417_width(1, 1, false), 86);
    assert_eq!(pdf417_width(30, 1, false), 579);
    assert_eq!(pdf417_width(3, 2, false), 240);
    assert_eq!(pdf417_width(1, 1, true), 52);
    assert_eq!(pdf417_width(3, 3, true), 258);
    assert_eq!(pdf417_width(255, 65535, false), 4404 * 65535);
    assert_eq!(pdf417_height(5, 1), 5);
    assert_eq!(pdf417_height(90, 4), 360);
    assert_eq!(pdf417_height(0, 7), 0);
    assert_eq!(m_pdf417_width(1, 1), 38);
    assert_eq!(m_pdf417_width(2, 1), 55);
    assert_eq!(m_pdf417_width(3, 1), 82);
    assert_eq!(m_pdf417_width(4, 2), 198);
    assert_eq!(m_pdf417_height(11, 2), 22);
}

#[test]
fn scaling_repeats_every_module() {
    let clusters = sample_clusters();
    let codewords = sample_codewords(8);
    let symbol = PDF417::new(&codewords, 4, 2, 1, &clusters);
    let plain = drain(&symbol.render());
    let w1 = symbol.width() as usize;
    for (sx, sy) in [(2usize, 1usize), (1, 2), (3, 4)] {
        for inverted in [false, true] {
            let render = symbol.render().set_scale((sx as u16, sy as u16)).set_inverted(inverted);
            assert_eq!(render.scale(), (sx as u16, sy as u16));
            assert_eq!(render.inverted(), inverted);
            let scaled = drain(&render);
            let w = w1 * sx;
            assert_eq!(scaled.len(), w * 4 * sy);
            for (p, &module) in scaled.iter().enumerate() {
                let (x, y) = (p % w, p / w);
                assert_eq!(module, plain[(y / sy) * w1 + x / sx] != inverted, "module {x}, {y}");
            }
        }
    }
}

#[test]
fn inversion_flips_every_module() {
    let clusters = sample_clusters();
    let codewords = sample_codewords(3);
    let symbol = PDF417::new(&codewords, 3, 1, 0, &clusters);
    let plain = drain(&symbol.render());
    let inverted = drain(&symbol.render().set_inverted(true));
    assert_eq!(plain.len(), inverted.len());
    assert!(plain.iter().zip(&inverted).all(|(a, b)| a != b));
    let back = drain(&symbol.render().set_inverted(true).set_inverted(false));
    assert_eq!(plain, back);
}

#[test]
fn truncation_cuts_the_right_indicator_and_the_end_pattern() {
    let clusters = sample_clusters();
    let codewords = sample_codewords(15);
    let full = drain(&PDF417::new(&codewords, 5, 3, 2, &clusters).render());
    let short = drain(&PDF417::new_truncated(&codewords, 5, 3, 2, &clusters).render());
    let wf = pdf417_width(3, 1, false);
    let ws = pdf417_width(3, 1, true);
    assert_eq!(wf - ws, 34);
    for row in 0..5 {
        let f = &full[row * wf..(row + 1) * wf];
        let s = &short[row * ws..(row + 1) * ws];
        assert_eq!(&s[..ws - 1], &f[..wf - 35], "row {row}");
        assert!(s[ws - 1]);
        assert_eq!(f, &regular_row(&codewords, 5, 3, 2, row, false)[..]);
        assert_eq!(s, &regular_row(&codewords, 5, 3, 2, row, true)[..]);
    }
}

#[test]
fn rendering_twice_gives_the_same() {
    let clusters = sample_clusters();
    let codewords = sample_codewords(6);
    let render = PDF417::new(&codewords, 3, 2, 0, &clusters).render().set_scale((2, 2));
    let copy = codewords.clone();
    let again = PDF417::new(&copy, 3, 2, 0, &clusters).render().set_scale((2, 2));
    assert_eq!(drain(&render), drain(&render));
    assert_eq!(drain(&render), drain(&again));
}

#[test]
fn fill_bits_writes_a_slot_for_every_module() {
    let clusters = sample_clusters();
    let codewords = sample_codewords(6);
    let render = PDF417::new(&codewords, 3, 2, 0, &clusters).render().set_scale((2, 3));
    let expected = drain(&render);
    let mut target = vec![false; expected.len() + 2];
    target[expected.len()] = true;
    render.fill_bits(&mut target);
    assert_eq!(&target[..expected.len()], &expected[..]);
    assert_eq!(&target[expected.len()..], &[true, false]);
}

#[test]
fn fill_writes_copies_of_on_and_off() {
    let clusters = sample_clusters();
    let codewords = sample_codewords(3);
    let render = PDF417::new(&codewords, 3, 1, 0, &clusters).render();
    let expected = drain(&render);
    let mut target = vec![String::from("?"); expected.len() + 1];
    render.fill(&mut target, &String::from("#"), &String::from(" "));
    for (slot, &module) in target.iter().zip(&expected) {
        assert_eq!(slot, if module { "#" } else { " " });
    }
    assert_eq!(target[expected.len()], "?");
}

#[test]
fn fill_bitmap_packs_eight_modules_into_a_byte() {
    let clusters = sample_clusters();
    let codewords = sample_codewords(3);
    // 86 modules a row: 258 modules, 32 bytes and two bits.
    let render = PDF417::new(&codewords, 3, 1, 0, &clusters).render();
    let modules = drain(&render);
    assert_eq!(modules.len(), 258);
    let mut target = vec![0u8; 34];
    render.fill_bitmap(&mut target);
    for (i, &module) in modules.iter().enumerate() {
        assert_eq!(target[i / 8] >> (7 - i % 8) & 1 == 1, module, "module {i}");
    }
    assert_eq!(target[32] & 0b0011_1111, 0);
    assert_eq!(target[33], 0);
    // The first byte is the head of the start pattern.
    assert_eq!(target[0], 0b1111_1111);
    assert_eq!(target[1], 0b0101_0100);

    // Bits that are set stay set.
    let mut target = vec![0b0000_0001u8; 34];
    target[33] = 0xF0;
    render.fill_bitmap(&mut target);
    for (i, &module) in modules.iter().enumerate() {
        let expected = module || i % 8 == 7;
        assert_eq!(target[i / 8] >> (7 - i % 8) & 1 == 1, expected, "module {i}");
    }
    assert_eq!(target[33], 0xF0);
}

#[test]
fn fill_bitmap_of_whole_bytes() {
    let clusters = sample_clusters();
    let codewords = sample_codewords(12);
    // Truncated rows of 3 columns have 86 modules; four rows at the scale
    // of 4 across have 1376 modules, 172 bytes.
    let render =
        PDF417::new_truncated(&codewords, 4, 3, 0, &clusters).render().set_scale((4, 1));
    let modules = drain(&render);
    assert_eq!(modules.len(), 1376);
    let mut target = vec![0u8; 172];
    render.fill_bitmap(&mut target);
    for (i, &module) in modules.iter().enumerate() {
        assert_eq!(target[i / 8] >> (7 - i % 8) & 1 == 1, module, "module {i}");
    }
}

/// The modules of a row of a MicroPDF417 symbol, built field by field.
fn micro_row(codewords: &[u16], variant: usize, cols: usize, row: usize) -> Vec<bool> {
    let left = (variant * 3 % 52 + row) % 51;
    let middle = (variant * 5 % 52 + row) % 51;
    let right = (variant * 7 % 52 + row) % 51;
    let cluster = (variant % 3 + row) % 3;
    let side = |i: usize| ((i as u32 * 37 + 5) % 1024) as u32;
    let center = |i: usize| ((i as u32 * 101 + 9) % 1024) as u32;
    let data = &codewords[row * cols..(row + 1) * cols];
    let split = if cols > 2 { 2 } else { 0 };
    let mut out = bits(side(left), 10);
    for &cw in &data[..split] {
        out.extend(bits(sample_pattern(cluster, cw as usize), 17));
    }
    if cols > 2 {
        out.extend(bits(center(middle), 10));
    }
    for &cw in &data[split..] {
        out.extend(bits(sample_pattern(cluster, cw as usize), 17));
    }
    out.extend(bits(side(right) * 2 + 1, 11));
    out
}

#[test]
fn micro_rows_have_their_address_patterns() {
    let clusters = sample_clusters();
    let micro = sample_micro();
    for index in [0u8, 5, 6, 12, 13, 22, 23, 33] {
        let variant = Variant::new(index).expect("a variant");
        let (rows, cols) = (variant.rows() as usize, variant.cols() as usize);
        let codewords = sample_codewords(rows * cols);
        let symbol = PDF417::from_variant(&codewords, variant, &clusters, &micro);
        assert_eq!(symbol.kind(), Kind::Micro);
        assert_eq!(symbol.level(), index);
        assert_eq!(symbol.rows() as usize, rows);
        assert_eq!(symbol.cols() as usize, cols);
        assert_eq!(symbol.width() as usize, m_pdf417_width(cols as u8, 1));
        let mut stream = symbol.bits();
        let mut modules = Vec::new();
        while let Some(bit) = stream.next() {
            modules.push(bit);
        }
        let mut expected = Vec::new();
        for row in 0..rows {
            let line = micro_row(&codewords, index as usize, cols, row);
            assert_eq!(line.len(), m_pdf417_width(cols as u8, 1), "variant {index}");
            expected.extend(line);
        }
        assert_eq!(modules, expected, "variant {index}");

        let drawn = drain(&symbol.render());
        assert_eq!(drawn.len(), m_pdf417_width(cols as u8, 1) * m_pdf417_height(rows as u8, 2));
        let w = m_pdf417_width(cols as u8, 1);
        for (p, &module) in drawn.iter().enumerate() {
            assert_eq!(module, expected[(p / w / 2) * w + p % w]);
        }
    }
}

#[test]
fn micro_rows_of_three_columns_have_the_centre_behind_the_second() {
    let clusters = sample_clusters();
    let micro = sample_micro();
    let variant = get_variant(6, 3).expect("a variant of 6 rows and 3 columns");
    let codewords = sample_codewords(18);
    let symbol = PDF417::from_variant(&codewords, variant, &clusters, &micro);
    let mut rows = symbol.iter();
    let mut row = rows.next().expect("six rows");
    assert!(matches!(row, Row::Micro(_)));
    let sizes: Vec<u8> = std::iter::from_fn(|| row.next()).map(|f| f.size()).collect();
    assert_eq!(sizes, vec![10, 17, 17, 10, 17, 11]);

    let variant = get_variant(4, 4).expect("a variant of 4 rows and 4 columns");
    let codewords = sample_codewords(16);
    let symbol = PDF417::from_variant(&codewords, variant, &clusters, &micro);
    let mut row = symbol.iter().next().expect("four rows");
    let sizes: Vec<u8> = std::iter::from_fn(|| row.next()).map(|f| f.size()).collect();
    assert_eq!(sizes, vec![10, 17, 17, 10, 17, 17, 11]);

    let variant = get_variant(8, 2).expect("a variant of 8 rows and 2 columns");
    let codewords = sample_codewords(16);
    let symbol = PDF417::from_variant(&codewords, variant, &clusters, &micro);
    let mut row = symbol.iter().next().expect("eight rows");
    let sizes: Vec<u8> = std::iter::from_fn(|| row.next()).map(|f| f.size()).collect();
    assert_eq!(sizes, vec![10, 17, 17, 11]);
}

#[test]
fn encoded_and_sealed_codewords_can_be_drawn() {
    let clusters = sample_clusters();
    let mut buffer = [0u16; 3 * 4];
    let (level, sealed) = pdf417::PDF417Encoder::new(&mut buffer, false)
        .append_ascii("Hello, world!")
        .fit_seal()
        .expect("twelve slots hold the text");
    assert_eq!(level, 0);
    assert!(check_codewords(sealed));
    let symbol = PDF417::new(sealed, 3, 4, level, &clusters);
    let render = symbol.render().set_scale((2, 2));
    let mut target = vec![false; pdf417_width(4, 2, false) * pdf417_height(3, 2)];
    render.fill_bits(&mut target);
    assert_eq!(target, drain(&render));
}

#[test]
fn size_hints_count_what_is_left() {
    let clusters = sample_clusters();
    let micro = sample_micro();
    let mut field = Bitfield::new(0b101, 3);
    assert_eq!(field.size_hint(), (3, Some(3)));
    field.next();
    assert_eq!(field.size_hint(), (2, Some(2)));

    let codewords = sample_codewords(12);
    for symbol in [
        PDF417::new(&codewords, 4, 3, 2, &clusters),
        PDF417::new_truncated(&codewords, 4, 3, 2, &clusters),
        PDF417::new(&codewords, 3, 4, 0, &clusters),
        PDF417::new_truncated(&codewords, 12, 1, 0, &clusters),
    ] {
        let mut rows = symbol.iter();
        let mut rows_left = symbol.rows() as usize;
        assert_eq!(rows.size_hint(), (rows_left, Some(rows_left)));
        while let Some(mut row) = rows.next() {
            rows_left -= 1;
            assert_eq!(rows.size_hint(), (rows_left, Some(rows_left)));
            let tail = if symbol.kind() == Kind::Truncated { 1 } else { 2 };
            let mut fields_left = 2 + symbol.cols() as usize + tail;
            assert_eq!(row.size_hint(), (fields_left, Some(fields_left)));
            while row.next().is_some() {
                fields_left -= 1;
                assert_eq!(row.size_hint(), (fields_left, Some(fields_left)));
            }
            assert_eq!(fields_left, 0);
        }
        assert_eq!(rows_left, 0);
        assert_eq!(rows.size_hint(), (0, Some(0)));
    }

    for (rows, cols, fields) in [(11u8, 1u8, 3usize), (8, 2, 4), (6, 3, 6), (4, 4, 7)] {
        let variant = get_variant(rows, cols).expect("a variant");
        let codewords = sample_codewords(rows as usize * cols as usize);
        let symbol = PDF417::from_variant(&codewords, variant, &clusters, &micro);
        let mut row = symbol.iter().next().expect("a first row");
        let mut fields_left = fields;
        assert_eq!(row.size_hint(), (fields_left, Some(fields_left)));
        while row.next().is_some() {
            fields_left -= 1;
            assert_eq!(row.size_hint(), (fields_left, Some(fields_left)));
        }
        assert_eq!(fields_left, 0);
    }
}
