use golomb_codes::bit_vec::{BitVecReader, BitVecWriter, CodeError};
use golomb_codes::golomb::{len_golomb, GolombRead, GolombWrite};
use golomb_codes::minimal_binary::{
    floor_log2_u64, len_minimal_binary, pow2_u64, MinimalBinaryRead, MinimalBinaryWrite,
};

fn encode(x: u64, b: u64) -> (Vec<bool>, usize) {
    let mut w = BitVecWriter::new();
    let n = w.write_golomb(x, b).unwrap();
    (w.into_bits(), n)
}

fn decode(bits: Vec<bool>, b: u64) -> (u64, usize) {
    let mut r = BitVecReader::new(bits);
    let x = r.read_golomb(b).unwrap();
    (x, r.remaining_bits())
}

#[test]
fn round_trip_small_values() {
    for &b in &[1u64, 2, 3, 5, 8, 16, 1000] {
        for x in 0u64..=300 {
            let (bits, written) = encode(x, b);
            assert_eq!(written, len_golomb(x, b));
            assert_eq!(bits.len(), written);
            let (back, left) = decode(bits, b);
            assert_eq!(back, x);
            assert_eq!(left, 0);
        }
    }
}

#[test]
fn round_trip_large_values() {
    for &(x, b) in &[
        (1u64 << 32, 1000u64),
        ((1u64 << 32) - 1, 1000),
        (123_456_789, 1000),
        (1u64 << 20, 16),
        (999_999, 1000),
        (1u64 << 31, 1000),
    ] {
        let (bits, written) = encode(x, b);
        assert_eq!(written, len_golomb(x, b));
        let (back, left) = decode(bits, b);
        assert_eq!(back, x);
        assert_eq!(left, 0);
    }
}

#[test]
fn length_agreement_on_writer() {
    for &b in &[2u64, 3, 7, 64] {
        let mut w = BitVecWriter::new();
        let mut total = 0usize;
        for x in 0u64..100 {
            total += w.write_golomb(x, b).unwrap();
        }
        assert_eq!(w.num_bits(), total);
    }
}

#[test]
fn len_composition_matches_subcodes() {
    assert_eq!(len_golomb(0, 5), 1 + len_minimal_binary(0, 5));
    for b in 1u64..=20 {
        for x in 0u64..60 {
            let expected = (x / b) as usize + 1 + len_minimal_binary(x % b, b);
            assert_eq!(len_golomb(x, b), expected);
        }
    }
}

#[test]
fn scenario_x10_b3() {
    // x = 10, b = 3: quotient 3, remainder 1; unary(3) takes 4 bits.
    assert_eq!(len_golomb(10, 3), 4 + len_minimal_binary(1, 3));
    assert_eq!(len_minimal_binary(1, 3), 2);
    let (bits, written) = encode(10, 3);
    assert_eq!(written, 6);
    assert_eq!(bits, vec![false, false, false, true, true, false]);
    let (back, left) = decode(bits, 3);
    assert_eq!(back, 10);
    assert_eq!(left, 0);
}

#[test]
fn minimal_binary_lengths_exact() {
    // m = 1 codes the single value in zero bits.
    assert_eq!(len_minimal_binary(0, 1), 0);
    // m = 2 is one plain bit.
    assert_eq!(len_minimal_binary(0, 2), 1);
    assert_eq!(len_minimal_binary(1, 2), 1);
    // m = 3: the short range holds one value.
    assert_eq!(len_minimal_binary(0, 3), 1);
    assert_eq!(len_minimal_binary(1, 3), 2);
    assert_eq!(len_minimal_binary(2, 3), 2);
    // m = 5: values below 8 - 5 = 3 take two bits, the rest three.
    assert_eq!(len_minimal_binary(0, 5), 2);
    assert_eq!(len_minimal_binary(2, 5), 2);
    assert_eq!(len_minimal_binary(3, 5), 3);
    assert_eq!(len_minimal_binary(4, 5), 3);
    // m = 1000: values below 1024 - 1000 = 24 take nine bits, the rest ten.
    assert_eq!(len_minimal_binary(0, 1000), 9);
    assert_eq!(len_minimal_binary(23, 1000), 9);
    assert_eq!(len_minimal_binary(24, 1000), 10);
    assert_eq!(len_minimal_binary(999, 1000), 10);
}

#[test]
fn minimal_binary_round_trip() {
    for &m in &[1u64, 2, 3, 5, 8, 16, 1000] {
        for r in 0..m {
            let mut w = BitVecWriter::new();
            let n = w.write_minimal_binary(r, m).unwrap();
            assert_eq!(n, len_minimal_binary(r, m));
            let mut rd = BitVecReader::new(w.into_bits());
            assert_eq!(rd.read_minimal_binary(m).unwrap(), r);
            assert_eq!(rd.remaining_bits(), 0);
        }
    }
}

#[test]
fn unary_round_trip() {
    for q in 0u64..100 {
        let mut w = golomb_codes::bit_vec::BitVecWriter::new();
        let n = golomb_codes::traits::BitWrite::write_unary(&mut w, q).unwrap();
        assert_eq!(n, (q + 1) as usize);
        let mut rd = BitVecReader::new(w.into_bits());
        assert_eq!(golomb_codes::traits::BitRead::read_unary(&mut rd).unwrap(), q);
        assert_eq!(rd.remaining_bits(), 0);
    }
    let mut w = BitVecWriter::new();
    golomb_codes::traits::BitWrite::write_unary(&mut w, 3).unwrap();
    assert_eq!(w.into_bits(), vec![false, false, false, true]);
}

#[test]
fn modulus_one_is_pure_unary() {
    assert_eq!(len_minimal_binary(0, 1), 0);
    for x in 0u64..50 {
        assert_eq!(len_golomb(x, 1), (x + 1) as usize);
    }
    let (bits, written) = encode(4, 1);
    assert_eq!(written, 5);
    assert_eq!(bits, vec![false, false, false, false, true]);
    let (back, left) = decode(bits, 1);
    assert_eq!(back, 4);
    assert_eq!(left, 0);
}

#[test]
fn decode_hand_built_stream() {
    // unary(2) = 001, then minimal binary of 3 under m = 5: 3 + 3 = 6 in
    // three bits, 110; the whole stream spells 2 * 5 + 3 = 13.
    let bits = vec![false, false, true, true, true, false];
    let (x, left) = decode(bits, 5);
    assert_eq!(x, 13);
    assert_eq!(left, 0);
}

#[test]
fn trailing_bits_stay_unread() {
    let (mut bits, _) = encode(10, 3);
    bits.push(true);
    bits.push(false);
    let mut r = BitVecReader::new(bits);
    assert_eq!(r.read_golomb(3).unwrap(), 10);
    assert_eq!(r.remaining_bits(), 2);
}

#[test]
fn end_of_stream_errors() {
    // An empty source has no code to read.
    let mut r = BitVecReader::new(Vec::new());
    assert_eq!(r.read_golomb(3), Err(CodeError::EndOfStream));
    // A source with no unary terminator runs out.
    let mut r = BitVecReader::new(vec![false, false, false]);
    assert_eq!(r.read_golomb(3), Err(CodeError::EndOfStream));
    // A code cut short after the unary part runs out in the remainder.
    let (bits, _) = encode(10, 3);
    let truncated = bits[..bits.len() - 1].to_vec();
    let mut r = BitVecReader::new(truncated);
    assert_eq!(r.read_golomb(3), Err(CodeError::EndOfStream));
}

#[test]
fn codes_concatenate() {
    let mut w = BitVecWriter::new();
    let n1 = w.write_golomb(7, 3).unwrap();
    let n2 = w.write_golomb(2, 3).unwrap();
    assert_eq!(n1 + n2, w.num_bits());
    let mut r = BitVecReader::new(w.into_bits());
    assert_eq!(r.read_golomb(3).unwrap(), 7);
    assert_eq!(r.read_golomb(3).unwrap(), 2);
    assert_eq!(r.remaining_bits(), 0);
}

#[test]
fn largest_moduli() {
    assert_eq!(len_minimal_binary(0, u64::MAX), 63);
    assert_eq!(len_minimal_binary(1, u64::MAX), 64);
    // a power-of-two modulus codes every remainder in the same width
    assert_eq!(len_minimal_binary(12345, 1u64 << 63), 63);
    for &(x, b) in &[
        (0u64, u64::MAX),
        (u64::MAX, u64::MAX),
        (u64::MAX - 1, u64::MAX),
        (42u64, 1u64 << 63),
    ] {
        let (bits, written) = encode(x, b);
        assert_eq!(written, len_golomb(x, b));
        let (back, left) = decode(bits, b);
        assert_eq!(back, x);
        assert_eq!(left, 0);
    }
}

#[test]
fn helpers_match_their_formulas() {
    assert_eq!(pow2_u64(0), 1);
    assert_eq!(pow2_u64(5), 32);
    assert_eq!(pow2_u64(63), 1u64 << 63);
    assert_eq!(floor_log2_u64(1), 0);
    assert_eq!(floor_log2_u64(2), 1);
    assert_eq!(floor_log2_u64(3), 1);
    assert_eq!(floor_log2_u64(4), 2);
    assert_eq!(floor_log2_u64(1024), 10);
    assert_eq!(floor_log2_u64(u64::MAX), 63);
}
