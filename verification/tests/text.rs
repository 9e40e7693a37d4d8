use oxiwhisper::bits::{
    find_leader, get_rank, is_above, limit, not_a_number, EIGHT_BITS, FOUR_BITS, HALF_BITS,
    NEG_INFINITY, ONE_BITS, PI_BITS, TWO_BITS, ZERO_BITS,
};
use oxiwhisper::mel::LEAST_ENERGY_BITS;
use oxiwhisper::probability::{LENGTH_EXPONENT_BITS, LOWEST_TEMPERATURE_BITS};
use oxiwhisper::tokenizer::TIMESTAMP_RESOLUTION_BITS;
use oxiwhisper::ranking::rank_places;
use oxiwhisper::text::{
    append_decimal, append_decimal_nat, append_hex_byte, get_text, is_special_text, same_text,
    starts_with_space, trim_trailing_nuls,
};

#[test]
fn texts_compare_by_characters() {
    assert!(same_text("haw", "haw"));
    assert!(!same_text("haw", "ha"));
}

#[test]
fn numbers_are_written_out() {
    let mut s = String::new();
    append_decimal(&mut s, -120);
    s.push(' ');
    append_decimal_nat(&mut s, u64::MAX);
    s.push(' ');
    append_hex_byte(&mut s, 0xA0);
    assert_eq!(s, "-120 18446744073709551615 a0");
}

#[test]
fn trailing_nuls_are_cut() {
    assert_eq!(trim_trailing_nuls("a\0b\0\0"), "a\0b");
    assert_eq!(trim_trailing_nuls("\0"), "");
}

#[test]
fn texts_are_told_apart_by_their_beginning() {
    assert!(is_special_text("<|en|>"));
    assert!(!is_special_text("<en|>"));
    assert!(!is_special_text("<"));
    assert!(starts_with_space(" a"));
    assert!(!starts_with_space("\u{A0}a"));
}

#[test]
fn bit_patterns_are_ordered_like_their_numbers() {
    let x = [f32::NEG_INFINITY, -2.0, -1e-40, -0.0, 0.0, 1e-40, 1.0, f32::INFINITY];
    for a in x {
        for b in x {
            assert_eq!(is_above(a.to_bits(), b.to_bits()), a > b);
            assert_eq!(get_rank(a.to_bits()) > get_rank(b.to_bits()), a > b);
        }
        assert!(!not_a_number(a.to_bits()));
        assert!(!is_above(a.to_bits(), f32::NAN.to_bits()));
    }
    assert!(not_a_number(f32::NAN.to_bits()) && not_a_number((-f32::NAN).to_bits()));
    assert_eq!(NEG_INFINITY, f32::NEG_INFINITY.to_bits());
}

#[test]
fn the_leader_is_the_last_maximum() {
    let bits: Vec<u32> = [1.0f32, 4.0, -9.0, 4.0, 2.0].iter().map(|x| x.to_bits()).collect();
    assert_eq!(find_leader(&bits), 3);
}

#[test]
fn places_are_ranked_from_the_greatest() {
    let bits: Vec<u32> = [1.0f32, 4.0, -9.0, 4.0, 2.0].iter().map(|x| x.to_bits()).collect();
    assert_eq!(rank_places(&bits), vec![1, 3, 4, 0, 2]);
    assert!(rank_places(&[]).is_empty());
}

#[test]
fn bytes_are_read_as_text() {
    for text in ["", "abc", " naïve", "日本語", "👨\u{200D}👩", "nul\0"] {
        assert_eq!(get_text(text.as_bytes()), text);
    }
    assert_eq!(get_text(&[0x61, 0xFF, 0x62]), "a\u{FFFD}b");
    assert_eq!(get_text(&[0xE6, 0x97]), "\u{FFFD}");
}

#[test]
fn bit_patterns_stand_for_their_constants() {
    let constants = [
        (ZERO_BITS, 0.0f32),
        (HALF_BITS, 0.5),
        (ONE_BITS, 1.0),
        (TWO_BITS, 2.0),
        (FOUR_BITS, 4.0),
        (EIGHT_BITS, 8.0),
        (PI_BITS, std::f32::consts::PI),
        (NEG_INFINITY, f32::NEG_INFINITY),
        (LEAST_ENERGY_BITS, 1e-10),
        (LOWEST_TEMPERATURE_BITS, 1e-6),
        (LENGTH_EXPONENT_BITS, 0.6),
        (TIMESTAMP_RESOLUTION_BITS, 0.02),
    ];
    for (bits, number) in constants {
        assert_eq!(bits, number.to_bits());
    }
}

#[test]
fn numbers_are_limited_to_the_unit_range() {
    let limited = |x: f32| f32::from_bits(limit(x.to_bits()));
    assert_eq!(limited(1.5), 1.0);
    assert_eq!(limited(-1.5), -1.0);
    assert_eq!(limited(-0.75), -0.75);
    assert_eq!(limited(f32::NAN), 0.0);
    assert_eq!(limited(-f32::NAN), 0.0);
}
