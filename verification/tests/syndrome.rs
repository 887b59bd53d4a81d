use pdf417::ecc::{generate_ecc, generate_micro_ecc};
use pdf417::tables::micro_ecc_params;
use pdf417::{PDF417Encoder, PDF417Render, Variant, PDF417};

/// The value at `x` modulo 929 of the polynomial whose coefficients are
/// `codewords`, the highest degree first.
fn value_at(codewords: &[u16], x: u64) -> u64 {
    codewords.iter().fold(0, |value, &cw| (value * x + cw as u64) % 929)
}

fn power_of_three(j: u32) -> u64 {
    (0..j).fold(1, |p, _| p * 3 % 929)
}

#[test]
fn sealed_codewords_vanish_at_the_roots_of_the_generator() {
    for level in 0..=8u8 {
        let count = 2usize << level;
        let mut codewords: Vec<u16> =
            (0..count + 20).map(|i| ((i * 577 + 31) % 929) as u16).collect();
        generate_ecc(&mut codewords, level);
        for j in 1..=count as u32 {
            assert_eq!(value_at(&codewords, power_of_three(j)), 0, "level {level}, root {j}");
        }
        // One further power of three is no root.
        assert_ne!(value_at(&codewords, power_of_three(count as u32 + 1)), 0, "level {level}");
    }
}

#[test]
fn sealed_micro_codewords_vanish_at_the_roots_of_the_generator() {
    for v in 0..34u8 {
        let (count, offset) = micro_ecc_params(v);
        let mut codewords: Vec<u16> =
            (0..count + 9).map(|i| ((i * 211 + 5 + v as usize) % 929) as u16).collect();
        generate_micro_ecc(&mut codewords, count, offset);
        for j in 1..=count as u32 {
            assert_eq!(value_at(&codewords, power_of_three(j)), 0, "variant {v}, root {j}");
        }
    }
}

#[test]
fn a_changed_codeword_shows_at_a_root() {
    let mut buffer = [0u16; 16];
    PDF417Encoder::new(&mut buffer, false).append_ascii("PDF417 corrects").seal(1);
    for j in 1..=4 {
        assert_eq!(value_at(&buffer, power_of_three(j)), 0);
    }
    for at in 0..16 {
        let mut damaged = buffer;
        damaged[at] = (damaged[at] + 1) % 929;
        assert!((1..=4).any(|j| value_at(&damaged, power_of_three(j)) != 0), "slot {at}");
    }
}

#[test]
fn conversions_give_what_their_methods_give() {
    let v = Variant::new(17).expect("there are 34 variants");
    assert_eq!(u8::from(v), 17);
    let number: u8 = v.into();
    assert_eq!(number, v.variant());

    let clusters = pdf417::ClusterTable::new(vec![0u16; 2787]).expect("2787 entries");
    let codewords = [1u16, 2, 3];
    let symbol = PDF417::new(&codewords, 3, 1, 0, &clusters);
    let render = PDF417Render::from(symbol);
    assert_eq!(render.scale(), symbol.render().scale());
    assert_eq!(render.inverted(), symbol.render().inverted());
    assert_eq!(render.width(), symbol.render().width());
    assert_eq!(render.height(), 3);
}
