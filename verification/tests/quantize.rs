use oxiwhisper::quantize::dot_scalar::{q4_0_values, q5_0_values, q8_0_values};
use oxiwhisper::quantize::{
    dequantize, dot_q4_0, dot_q5_0, dot_q8_0, QuantType, Q4_0_BLOCK_BYTES, Q4_0_BLOCK_SIZE,
    Q5_0_BLOCK_BYTES, Q5_0_BLOCK_SIZE, Q8_0_BLOCK_BYTES, Q8_0_BLOCK_SIZE,
};

fn widen(bits: u16) -> f32 {
    half::f16::from_bits(bits).to_f32()
}

fn scale(v: f32) -> [u8; 2] {
    half::f16::from_f32(v).to_le_bytes()
}

fn ramp(n: usize) -> Vec<f32> {
    (0..n).map(|i| i as f32).collect()
}

/// A block of four-bit integers: the low nibbles count up, the high ones down.
fn q4_0_block(s: f32) -> Vec<u8> {
    let mut b = scale(s).to_vec();
    for i in 0..16u8 {
        b.push(i | ((15 - i) << 4));
    }
    b
}

#[test]
fn block_sizes_are_those_of_ggml() {
    assert_eq!((Q4_0_BLOCK_SIZE, Q4_0_BLOCK_BYTES), (32, 18));
    assert_eq!((Q5_0_BLOCK_SIZE, Q5_0_BLOCK_BYTES), (32, 22));
    assert_eq!((Q8_0_BLOCK_SIZE, Q8_0_BLOCK_BYTES), (32, 34));
}

#[test]
fn four_bit_values_are_centred() {
    let v = q4_0_values(&q4_0_block(1.0), 0);
    let expected: Vec<i8> = (-8..8).chain((-8..8).rev()).collect();
    assert_eq!(v, expected);
}

#[test]
fn five_bit_values_take_a_high_bit() {
    let mut b = scale(1.0).to_vec();
    b.extend_from_slice(&0x0001_8000u32.to_le_bytes());
    b.extend_from_slice(&[0xF0; 16]);
    let v = q5_0_values(&b, 0);
    assert_eq!(v[0], -16);
    assert_eq!(v[15], 0);
    assert_eq!(v[16], 15);
    assert_eq!(v[17], -1);
}

#[test]
fn bytes_are_signed() {
    let mut b = vec![0, 0];
    b.extend((0..32).map(|i: u8| i.wrapping_sub(16)));
    let expected: Vec<i8> = (-16..16).collect();
    assert_eq!(q8_0_values(&b, 0), expected);
}

#[test]
fn dot_products_of_four_bit_blocks() {
    let mut q = q4_0_block(0.5);
    q.extend(q4_0_block(2.0));
    let x = ramp(64);
    let one: f32 = q4_0_values(&q, 0).iter().zip(&x).map(|(v, a)| *v as f32 * a).sum();
    let two: f32 = q4_0_values(&q, 18).iter().zip(&x[32..]).map(|(v, a)| *v as f32 * a).sum();
    assert_eq!(dot_q4_0(&x, &q, 64, 0.0, widen), one * 0.5 + two * 2.0);
    assert_eq!(dot_q4_0(&x, &q, 63, 0.0, widen), one * 0.5);
    assert_eq!(dot_q4_0(&x, &q, 0, 0.0, widen), 0.0);
}

#[test]
fn dot_products_of_five_bit_blocks() {
    let mut q = scale(0.25).to_vec();
    q.extend_from_slice(&0xFFFF_0000u32.to_le_bytes());
    q.extend_from_slice(&[0x21; 16]);
    let x = ramp(32);
    // The first half holds -15, the second one 2.
    let low: f32 = x[..16].iter().sum();
    let high: f32 = x[16..].iter().sum();
    assert_eq!(dot_q5_0(&x, &q, 32, 0.0, widen), 0.25 * (-15.0 * low + 2.0 * high));
}

#[test]
fn dot_products_of_bytes() {
    let mut q = scale(-1.5).to_vec();
    q.extend_from_slice(&[0xFE; 32]);
    assert_eq!(dot_q8_0(&[1.0; 32], &q, 32, 0.0, widen), 96.0);
}

#[test]
fn blocks_are_dequantized_with_their_scales() {
    let mut q = q4_0_block(0.5);
    q.extend(q4_0_block(2.0));
    let x: Vec<f32> = dequantize(QuantType::Q4_0, &q, 70, &widen);
    assert_eq!(x.len(), 64);
    assert_eq!((x[0], x[15], x[16], x[31]), (-4.0, 3.5, 3.5, -4.0));
    assert_eq!((x[32], x[63]), (-16.0, -16.0));
    let mut five = scale(1.0).to_vec();
    five.extend_from_slice(&[0; 20]);
    assert_eq!(dequantize::<f32, _>(QuantType::Q5_0, &five, 32, &widen), vec![-16.0; 32]);
    let mut eight = scale(0.25).to_vec();
    eight.extend_from_slice(&[0x80; 32]);
    assert_eq!(dequantize::<f32, _>(QuantType::Q8_0, &eight, 32, &widen), vec![-32.0; 32]);
}
