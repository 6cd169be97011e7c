//! Tests for the float format path: fixed and exponent layouts in
//! several radixes, trimming, special values, and round trips.

use lexical::float::Float32;
use lexical::float::Float64;
use lexical::ftoa::f32toa_slice;
use lexical::ftoa::f64toa_slice;
use lexical::ftoa::MAX_F32_SIZE;
use lexical::ftoa::MAX_F64_SIZE;
use lexical::atof::atof32_slice;
use lexical::atof::atof64_slice;

const F32_DATA: [f32; 31] = [
    0., 0.1, 1., 1.1, 12., 12.1, 123., 123.1, 1234., 1234.1, 12345., 12345.1, 123456., 123456.1,
    1234567., 1234567.1, 12345678., 12345678.1, 123456789., 123456789.1, 123456789.12,
    123456789.123, 123456789.1234, 123456789.12345, 1.2345678912345e8, 1.2345e+8, 1.2345e+11,
    1.2345e+38, 1.2345e-8, 1.2345e-11, 1.2345e-38,
];

const F64_DATA: [f64; 33] = [
    0., 0.1, 1., 1.1, 12., 12.1, 123., 123.1, 1234., 1234.1, 12345., 12345.1, 123456., 123456.1,
    1234567., 1234567.1, 12345678., 12345678.1, 123456789., 123456789.1, 123456789.12,
    123456789.123, 123456789.1234, 123456789.12345, 1.2345678912345e8, 1.2345e+8, 1.2345e+11,
    1.2345e+38, 1.2345e+308, 1.2345e-8, 1.2345e-11, 1.2345e-38, 1.2345e-299,
];

fn new_buffer() -> Vec<u8> {
    vec![b'0'; MAX_F64_SIZE]
}

fn f32_text(value: f32, radix: u8, trim: bool) -> Vec<u8> {
    let mut buffer = new_buffer();
    let len = f32toa_slice(Float32::from_bits(value.to_bits()), radix, trim, &mut buffer);
    buffer[..len].to_vec()
}

fn f64_text(value: f64, radix: u8, trim: bool) -> Vec<u8> {
    let mut buffer = new_buffer();
    let len = f64toa_slice(Float64::from_bits(value.to_bits()), radix, trim, &mut buffer);
    buffer[..len].to_vec()
}

fn f32_back(radix: u8, bytes: &[u8]) -> f32 {
    f32::from_bits(atof32_slice(radix, bytes).to_bits())
}

fn f64_back(radix: u8, bytes: &[u8]) -> f64 {
    f64::from_bits(atof64_slice(radix, bytes).to_bits())
}

fn close_f32(a: f32, b: f32, epsilon: f32, max_relative: f32) -> bool {
    if a == b {
        return true;
    }
    let diff = (a - b).abs();
    if diff <= epsilon {
        return true;
    }
    let largest = a.abs().max(b.abs());
    diff <= largest * max_relative
}

fn close_f64(a: f64, b: f64, epsilon: f64, max_relative: f64) -> bool {
    if a == b {
        return true;
    }
    let diff = (a - b).abs();
    if diff <= epsilon {
        return true;
    }
    let largest = a.abs().max(b.abs());
    diff <= largest * max_relative
}

#[test]
fn f32toa_base2_test() {
    // trimmed
    assert_eq!(b"0".to_vec(), f32_text(0.0, 2, true));
    assert_eq!(b"0".to_vec(), f32_text(-0.0, 2, true));
    assert_eq!(b"1".to_vec(), f32_text(1.0, 2, true));
    assert_eq!(b"10".to_vec(), f32_text(2.0, 2, true));

    // untrimmed
    assert_eq!(b"0.0".to_vec(), f32_text(0.0, 2, false));
    assert_eq!(b"-0.0".to_vec(), f32_text(-0.0, 2, false));
    assert_eq!(b"1.0".to_vec(), f32_text(1.0, 2, false));
    assert_eq!(b"10.0".to_vec(), f32_text(2.0, 2, false));

    assert_eq!(b"1.1".to_vec(), f32_text(1.5, 2, false));
    assert_eq!(b"1.01".to_vec(), f32_text(1.25, 2, false));
    assert_eq!(b"1.001111000000110010".to_vec(), f32_text(1.2345678901234567890e0, 2, false)[..20].to_vec());
    assert_eq!(b"1100.010110000111111".to_vec(), f32_text(1.2345678901234567890e1, 2, false)[..20].to_vec());
    assert_eq!(b"1111011.011101001111".to_vec(), f32_text(1.2345678901234567890e2, 2, false)[..20].to_vec());
    assert_eq!(b"10011010010.10010001".to_vec(), f32_text(1.2345678901234567890e3, 2, false)[..20].to_vec());

    // negative
    assert_eq!(b"-1.001111000000110010".to_vec(), f32_text(-1.2345678901234567890e0, 2, false)[..21].to_vec());
    assert_eq!(b"-1100.010110000111111".to_vec(), f32_text(-1.2345678901234567890e1, 2, false)[..21].to_vec());
    assert_eq!(b"-1111011.011101001111".to_vec(), f32_text(-1.2345678901234567890e2, 2, false)[..21].to_vec());
    assert_eq!(b"-10011010010.10010001".to_vec(), f32_text(-1.2345678901234567890e3, 2, false)[..21].to_vec());

    // special
    assert_eq!(b"NaN".to_vec(), f32_text(f32::NAN, 2, false));
    assert_eq!(b"inf".to_vec(), f32_text(f32::INFINITY, 2, false));

    // bugfixes
    assert_eq!(b"1.1010100000101011110001e-11011".to_vec(), f32_text(0.000000012345, 2, false));
}

#[test]
fn f32toa_base10_test() {
    // trimmed
    assert_eq!(b"0".to_vec(), f32_text(0.0, 10, true));
    assert_eq!(b"0".to_vec(), f32_text(-0.0, 10, true));
    assert_eq!(b"1".to_vec(), f32_text(1.0, 10, true));
    assert_eq!(b"10".to_vec(), f32_text(10.0, 10, true));

    // untrimmed
    assert_eq!(b"0.0".to_vec(), f32_text(0.0, 10, false));
    assert_eq!(b"-0.0".to_vec(), f32_text(-0.0, 10, false));
    assert_eq!(b"1.0".to_vec(), f32_text(1.0, 10, false));
    assert_eq!(b"10.0".to_vec(), f32_text(10.0, 10, false));

    assert_eq!(b"1.234567".to_vec(), f32_text(1.2345678901234567890e0, 10, false)[..8].to_vec());
    assert_eq!(b"12.34567".to_vec(), f32_text(1.2345678901234567890e1, 10, false)[..8].to_vec());
    assert_eq!(b"123.4567".to_vec(), f32_text(1.2345678901234567890e2, 10, false)[..8].to_vec());
    assert_eq!(b"1234.567".to_vec(), f32_text(1.2345678901234567890e3, 10, false)[..8].to_vec());

    // negative
    assert_eq!(b"-1.234567".to_vec(), f32_text(-1.2345678901234567890e0, 10, false)[..9].to_vec());
    assert_eq!(b"-12.34567".to_vec(), f32_text(-1.2345678901234567890e1, 10, false)[..9].to_vec());
    assert_eq!(b"-123.4567".to_vec(), f32_text(-1.2345678901234567890e2, 10, false)[..9].to_vec());
    assert_eq!(b"-1234.567".to_vec(), f32_text(-1.2345678901234567890e3, 10, false)[..9].to_vec());

    // special
    assert_eq!(b"NaN".to_vec(), f32_text(f32::NAN, 10, false));
    assert_eq!(b"inf".to_vec(), f32_text(f32::INFINITY, 10, false));
}

#[test]
fn f32toa_base10_roundtrip_test() {
    for f in F32_DATA.iter() {
        let s = f32_text(*f, 10, false);
        assert!(close_f32(f32_back(10, &s), *f, 1e-6, 1e-6));
    }
}

#[test]
fn f32toa_basen_roundtrip_test() {
    for f in F32_DATA.iter() {
        for radix in 2..37 {
            let s = f32_text(*f, radix as u8, false);
            assert!(close_f32(f32_back(radix as u8, &s), *f, 0.0, 2e-5));
        }
    }
}

#[test]
fn f64toa_base2_test() {
    // trimmed
    assert_eq!(b"0".to_vec(), f64_text(0.0, 2, true));
    assert_eq!(b"0".to_vec(), f64_text(-0.0, 2, true));
    assert_eq!(b"1".to_vec(), f64_text(1.0, 2, true));
    assert_eq!(b"10".to_vec(), f64_text(2.0, 2, true));

    // untrimmed
    assert_eq!(b"0.0".to_vec(), f64_text(0.0, 2, false));
    assert_eq!(b"-0.0".to_vec(), f64_text(-0.0, 2, false));
    assert_eq!(b"1.0".to_vec(), f64_text(1.0, 2, false));
    assert_eq!(b"10.0".to_vec(), f64_text(2.0, 2, false));

    assert_eq!(
        b"1.00111100000011001010010000101000110001".to_vec(),
        f64_text(1.2345678901234567890e0, 2, false)[..40].to_vec()
    );
    assert_eq!(
        b"1100.01011000011111100110100110010111101".to_vec(),
        f64_text(1.2345678901234567890e1, 2, false)[..40].to_vec()
    );
    assert_eq!(
        b"1111011.01110100111100000001111111101101".to_vec(),
        f64_text(1.2345678901234567890e2, 2, false)[..40].to_vec()
    );
    assert_eq!(
        b"10011010010.1001000101100001001111110100".to_vec(),
        f64_text(1.2345678901234567890e3, 2, false)[..40].to_vec()
    );

    // negative
    assert_eq!(
        b"-1.00111100000011001010010000101000110001".to_vec(),
        f64_text(-1.2345678901234567890e0, 2, false)[..41].to_vec()
    );
    assert_eq!(
        b"-1100.01011000011111100110100110010111101".to_vec(),
        f64_text(-1.2345678901234567890e1, 2, false)[..41].to_vec()
    );
    assert_eq!(
        b"-1111011.01110100111100000001111111101101".to_vec(),
        f64_text(-1.2345678901234567890e2, 2, false)[..41].to_vec()
    );
    assert_eq!(
        b"-10011010010.1001000101100001001111110100".to_vec(),
        f64_text(-1.2345678901234567890e3, 2, false)[..41].to_vec()
    );

    // special
    assert_eq!(b"NaN".to_vec(), f64_text(f64::NAN, 2, false));
    assert_eq!(b"inf".to_vec(), f64_text(f64::INFINITY, 2, false));
}

#[test]
fn f64toa_base10_test() {
    // trimmed
    assert_eq!(b"0".to_vec(), f64_text(0.0, 10, true));
    assert_eq!(b"0".to_vec(), f64_text(-0.0, 10, true));
    assert_eq!(b"1".to_vec(), f64_text(1.0, 10, true));
    assert_eq!(b"10".to_vec(), f64_text(10.0, 10, true));

    // untrimmed
    assert_eq!(b"0.0".to_vec(), f64_text(0.0, 10, false));
    assert_eq!(b"-0.0".to_vec(), f64_text(-0.0, 10, false));
    assert_eq!(b"1.0".to_vec(), f64_text(1.0, 10, false));
    assert_eq!(b"10.0".to_vec(), f64_text(10.0, 10, false));

    assert_eq!(b"1.234567".to_vec(), f64_text(1.2345678901234567890e0, 10, false)[..8].to_vec());
    assert_eq!(b"12.34567".to_vec(), f64_text(1.2345678901234567890e1, 10, false)[..8].to_vec());
    assert_eq!(b"123.4567".to_vec(), f64_text(1.2345678901234567890e2, 10, false)[..8].to_vec());
    assert_eq!(b"1234.567".to_vec(), f64_text(1.2345678901234567890e3, 10, false)[..8].to_vec());

    // negative
    assert_eq!(b"-1.234567".to_vec(), f64_text(-1.2345678901234567890e0, 10, false)[..9].to_vec());
    assert_eq!(b"-12.34567".to_vec(), f64_text(-1.2345678901234567890e1, 10, false)[..9].to_vec());
    assert_eq!(b"-123.4567".to_vec(), f64_text(-1.2345678901234567890e2, 10, false)[..9].to_vec());
    assert_eq!(b"-1234.567".to_vec(), f64_text(-1.2345678901234567890e3, 10, false)[..9].to_vec());

    // special
    assert_eq!(b"NaN".to_vec(), f64_text(f64::NAN, 10, false));
    assert_eq!(b"inf".to_vec(), f64_text(f64::INFINITY, 10, false));
}

#[test]
fn f64toa_base10_roundtrip_test() {
    for f in F64_DATA.iter() {
        let s = f64_text(*f, 10, false);
        assert!(close_f64(f64_back(10, &s), *f, 1e-12, 1e-12));
    }
}

#[test]
fn f64toa_basen_roundtrip_test() {
    for f in F64_DATA.iter() {
        for radix in 2..37 {
            let s = f64_text(*f, radix as u8, false);
            assert!(close_f64(f64_back(radix as u8, &s), *f, 0.0, 3e-5));
        }
    }
}

#[test]
#[should_panic]
fn f32toa_buffer_test() {
    let mut buffer = vec![b'0'; MAX_F32_SIZE - 1];
    f64toa_slice(Float64::from_bits(1.2345f64.to_bits()), 10, false, &mut buffer);
}

#[test]
#[should_panic]
fn f64toa_buffer_test() {
    let mut buffer = vec![b'0'; MAX_F64_SIZE - 1];
    f64toa_slice(Float64::from_bits(1.2345f64.to_bits()), 10, false, &mut buffer);
}
