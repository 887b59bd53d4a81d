use pdf417::ecc::{
    generate_ecc, generate_ecc_codewords, generate_micro_ecc, write_factors, write_micro_table,
    MICRO_COUNTS, MICRO_OFFSETS,
};
use pdf417::tables::{micro_ecc_params, M_PDF417_VARIANTS, M_PDF417_VARIANTS_COUNT};
use pdf417::{get_variant, ClusterTable, MicroTables, Variant};

#[test]
fn factors_of_the_lowest_level_are_those_of_the_generator() {
    // (x - 3)(x - 9) = x^2 - 12 x + 27, and -12 is 917 modulo 929.
    let mut table = [0u16; 4];
    write_factors(&mut table, 1, 2);
    assert_eq!(table, [0, 27, 917, 0]);
}

#[test]
fn factors_of_seven_and_eight_codewords() {
    let mut table = [0u16; 15];
    write_factors(&mut table, 0, 7);
    write_factors(&mut table, 7, 8);
    assert_eq!(
        table,
        [76, 925, 537, 597, 784, 691, 437, 237, 308, 436, 284, 646, 653, 428, 379]
    );
}

#[test]
fn factors_of_no_codewords_write_nothing() {
    let mut table = [5u16; 3];
    write_factors(&mut table, 3, 0);
    assert_eq!(table, [5, 5, 5]);
}

#[test]
fn micro_table_holds_the_tables_of_all_counts() {
    let mut table = [0u16; 344];
    write_micro_table(&mut table);
    assert_eq!(MICRO_OFFSETS[17], 344);
    for n in 0..17 {
        let count = MICRO_COUNTS[n] as usize;
        let at = MICRO_OFFSETS[n] as usize;
        assert_eq!(MICRO_OFFSETS[n + 1] as usize, at + count);
        let mut expected = vec![0u16; count];
        write_factors(&mut expected, 0, count);
        assert_eq!(&table[at..at + count], &expected[..], "count {count}");
    }
    assert_eq!(&table[..7], &[76, 925, 537, 597, 784, 691, 437]);
}

#[test]
fn generate_ecc_codewords_with_the_factors_of_a_level_is_generate_ecc() {
    let data = [16u16, 902, 1, 278, 827, 900, 295, 902, 2, 326, 0, 0, 0, 0];
    for level in 0..2u8 {
        let count = 2usize << level;
        let mut factors = vec![0u16; count];
        write_factors(&mut factors, 0, count);
        let mut by_level = data;
        generate_ecc(&mut by_level, level);
        let mut by_factors = data;
        generate_ecc_codewords(&factors, &mut by_factors);
        assert_eq!(by_level, by_factors);
        assert_eq!(&by_level[..14 - count], &data[..14 - count]);
    }
}

#[test]
fn generate_ecc_twice_changes_nothing() {
    let mut once = [16u16, 902, 1, 278, 827, 900, 295, 902, 2, 326, 7, 7, 7, 7];
    generate_ecc(&mut once, 1);
    let mut twice = once;
    generate_ecc(&mut twice, 1);
    assert_eq!(once, twice);
    assert_ne!(&once[10..], &[7, 7, 7, 7]);
}

#[test]
fn generate_ecc_ignores_what_the_last_slots_held() {
    let mut a = [5u16, 6, 7, 0, 0];
    let mut b = [5u16, 6, 7, 900, 123];
    generate_ecc(&mut a, 0);
    generate_ecc(&mut b, 0);
    assert_eq!(a, b);
}

#[test]
fn generate_ecc_of_no_data_is_zero() {
    let mut only = [9u16, 9];
    generate_ecc(&mut only, 0);
    assert_eq!(only, [0, 0]);
}

#[test]
fn generate_ecc_takes_any_sixteen_bits_as_data() {
    // 65535 is 505 modulo 929: the correction codewords are the same.
    let mut wide = [65535u16, 0, 0];
    let mut narrow = [505u16, 0, 0];
    generate_ecc(&mut wide, 0);
    generate_ecc(&mut narrow, 0);
    assert_eq!(&wide[1..], &narrow[1..]);
}

#[test]
fn generate_micro_ecc_of_the_first_variant() {
    let mut codewords = [
        900u16, 597, 138, 599, 902, 142, 142, 901, 169, 883, 224, 680, 517, 32, 98, 105, 110, 0, 0,
        0, 0, 0, 0, 0,
    ];
    generate_micro_ecc(&mut codewords, 7, 0);
    assert_eq!(&codewords[17..], &[383, 745, 811, 163, 659, 400, 129]);
}

#[test]
fn generate_micro_ecc_of_every_variant_uses_the_generator_of_its_count() {
    for v in 0..34u8 {
        let (count, offset) = micro_ecc_params(v);
        let mut factors = vec![0u16; count];
        write_factors(&mut factors, 0, count);
        let mut by_table = vec![3u16; count + 5];
        generate_micro_ecc(&mut by_table, count, offset);
        let mut by_factors = vec![3u16; count + 5];
        generate_ecc_codewords(&factors, &mut by_factors);
        assert_eq!(by_table, by_factors, "variant {v}");
    }
}

#[test]
fn variants_have_the_sizes_of_the_symbology() {
    // The data codewords of every variant, by columns.
    let capacities: [usize; 34] = [
        4, 7, 10, 12, 16, 20, 8, 13, 19, 24, 29, 33, 37, 6, 10, 14, 18, 24, 34, 46, 58, 70, 82, 8,
        12, 18, 24, 30, 39, 54, 72, 90, 108, 126,
    ];
    for index in 0..34u8 {
        let v = Variant::new(index).expect("there are 34 variants");
        assert_eq!(v.variant(), index);
        assert_eq!(v.size(), v.rows() as usize * v.cols() as usize);
        assert_eq!(v.capacity(), capacities[index as usize]);
        assert_eq!(v.capacity() + v.ecc_count(), v.size());
        assert_eq!(v.cols() as u16, M_PDF417_VARIANTS[index as usize]);
        assert_eq!(v.rows() as u16, M_PDF417_VARIANTS[M_PDF417_VARIANTS_COUNT + index as usize]);
        assert_eq!((v.ecc_count(), v.ecc_offset()), micro_ecc_params(index));
    }
    assert!(Variant::new(34).is_none());
    assert!(Variant::new(255).is_none());
}

#[test]
fn get_variant_finds_by_rows_and_columns() {
    assert_eq!(get_variant(11, 1).map(|v| v.variant()), Some(0));
    assert_eq!(get_variant(28, 1).map(|v| v.variant()), Some(5));
    assert_eq!(get_variant(8, 2).map(|v| v.variant()), Some(6));
    assert_eq!(get_variant(6, 3).map(|v| v.variant()), Some(13));
    assert_eq!(get_variant(4, 4).map(|v| v.variant()), Some(23));
    assert_eq!(get_variant(44, 4).map(|v| v.variant()), Some(33));
    assert!(get_variant(5, 5).is_none());
    assert!(get_variant(4, 1).is_none());
    assert!(get_variant(0, 0).is_none());
}

#[test]
fn with_capacity_takes_the_smallest_that_holds() {
    assert_eq!(Variant::with_capacity(0).map(|v| v.variant()), Some(0));
    assert_eq!(Variant::with_capacity(5).map(|v| v.variant()), Some(13));
    assert_eq!(Variant::with_capacity(8).map(|v| v.variant()), Some(6));
    assert_eq!(Variant::with_capacity(9).map(|v| v.variant()), Some(2));
    assert_eq!(Variant::with_capacity(83).map(|v| v.variant()), Some(31));
    assert_eq!(Variant::with_capacity(126).map(|v| v.variant()), Some(33));
    assert!(Variant::with_capacity(127).is_none());
    for n in 0..=126usize {
        let v = Variant::with_capacity(n).expect("up to 126 codewords fit");
        assert!(v.capacity() >= n);
        for other in 0..34u8 {
            let w = Variant::new(other).expect("there are 34 variants");
            if w.capacity() >= n {
                assert!(
                    v.capacity() < w.capacity()
                        || (v.capacity() == w.capacity() && v.variant() <= other)
                );
            }
        }
    }
}

#[test]
fn cluster_table_needs_all_its_entries() {
    assert!(ClusterTable::new(vec![0u16; 2786]).is_none());
    assert!(ClusterTable::new(vec![0u16; 2788]).is_none());
    assert!(ClusterTable::new(Vec::new()).is_none());
    let mut patterns = vec![0u16; 2787];
    patterns[929 + 5] = 0xABCD;
    let table = ClusterTable::new(patterns).expect("2787 entries");
    assert_eq!(table.lookup(1, 5), 0x1ABCD);
    assert_eq!(table.lookup(0, 5), 0x10000);
    assert_eq!(table.lookup(2, 928), 0x10000);
}

fn sample_rap() -> Vec<u8> {
    let mut rap = vec![0u8; 136];
    for v in 0..34 {
        rap[v] = (v % 52 + 1) as u8;
        rap[34 + v] = if M_PDF417_VARIANTS[v] >= 3 { 52 } else { 0 };
        rap[68 + v] = 1;
        rap[102 + v] = (v % 3) as u8;
    }
    rap
}

#[test]
fn micro_tables_are_verified_when_taken_over() {
    let side: Vec<u16> = (0..52).map(|i| 900 + i).collect();
    let center: Vec<u16> = (0..52).map(|i| 500 + i).collect();
    let tables =
        MicroTables::new(sample_rap(), side.clone(), center.clone()).expect("tables in range");
    assert_eq!(tables.starts(0), (0, 0, 0, 0));
    assert_eq!(tables.starts(13), (13, 51, 0, 1));
    assert_eq!(tables.starts(33), (33, 51, 0, 0));
    assert_eq!(tables.side_pattern(3), 903);
    assert_eq!(tables.center_pattern(51), 551);

    // A row address pattern of more than ten modules.
    let mut wide = side.clone();
    wide[51] = 1024;
    assert!(MicroTables::new(sample_rap(), wide, center.clone()).is_none());
    let mut wide = center.clone();
    wide[0] = 1024;
    assert!(MicroTables::new(sample_rap(), side.clone(), wide).is_none());
    // Too few row address patterns.
    assert!(MicroTables::new(sample_rap(), side[..51].to_vec(), center.clone()).is_none());
    assert!(MicroTables::new(sample_rap(), side.clone(), center[..51].to_vec()).is_none());
    // A start that is no row address pattern.
    let mut rap = sample_rap();
    rap[0] = 0;
    assert!(MicroTables::new(rap, side.clone(), center.clone()).is_none());
    let mut rap = sample_rap();
    rap[68 + 33] = 53;
    assert!(MicroTables::new(rap, side.clone(), center.clone()).is_none());
    // A centre that is none, in a variant of three columns.
    let mut rap = sample_rap();
    rap[34 + 13] = 0;
    assert!(MicroTables::new(rap, side.clone(), center.clone()).is_none());
    // A cluster that is none.
    let mut rap = sample_rap();
    rap[102] = 3;
    assert!(MicroTables::new(rap, side.clone(), center.clone()).is_none());
    // A table of the wrong length.
    assert!(MicroTables::new(vec![1u8; 135], side, center).is_none());
}
