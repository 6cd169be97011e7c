//! Tests for the high-level API and the documented scenarios: checked
//! and unchecked parsing with their error offsets, exact round trips,
//! string output, and the pre-built option sets.

use lexical::float::Float32;
use lexical::float::Float64;
use lexical::ParseFloatOptions;
use lexical::ParseIntegerOptions;
use lexical::RoundingKind;
use lexical::WriteFloatOptions;
use lexical::WriteIntegerOptions;

#[test]
fn parse_integer_scenarios_test() {
    assert_eq!(lexical::parse::<i32>(b"5"), 5);
    assert_eq!(lexical::parse::<i32>(b"1a"), 1);
    assert_eq!(lexical::parse::<i32>(b"-42"), -42);
    assert_eq!(lexical::parse::<u64>(b"18446744073709551615"), u64::MAX);
    assert_eq!(lexical::try_parse::<i32>(b"5"), Ok(5));
    assert_eq!(lexical::try_parse::<i32>(b"1a"), Err(1));
    assert_eq!(lexical::try_parse::<i32>(b"1."), Err(1));
    assert_eq!(lexical::try_parse::<u32>(b""), Err(0));
    assert_eq!(lexical::try_parse_radix::<i32>(b"ff", 16), Ok(255));
}

#[test]
fn parse_float_scenarios_test() {
    let zero: Float32 = lexical::parse(b"0");
    assert_eq!(f32::from_bits(zero.to_bits()), 0.0);
    let one: Float32 = lexical::parse(b"1.");
    assert_eq!(f32::from_bits(one.to_bits()), 1.0);
    let one0: Float32 = lexical::parse(b"1.0");
    assert_eq!(f32::from_bits(one0.to_bits()), 1.0);

    assert_eq!(lexical::try_parse::<Float32>(b"1.").unwrap_err(), 1);
    assert_eq!(lexical::try_parse::<Float32>(b"1.0.").unwrap_err(), 3);
    let ok: Float32 = lexical::try_parse(b"1.0").unwrap();
    assert_eq!(f32::from_bits(ok.to_bits()), 1.0);
}

#[test]
fn parse_float_specials_test() {
    let nan: Float64 = lexical::parse(b"NaN");
    assert!(f64::from_bits(nan.to_bits()).is_nan());
    let inf: Float64 = lexical::parse(b"inf");
    assert_eq!(f64::from_bits(inf.to_bits()), f64::INFINITY);
    let long: Float64 = lexical::parse(b"infinity");
    assert_eq!(f64::from_bits(long.to_bits()), f64::INFINITY);
    let neg: Float64 = lexical::parse(b"-inf");
    assert_eq!(f64::from_bits(neg.to_bits()), f64::NEG_INFINITY);
}

#[test]
fn roundtrip_bit_exact_test() {
    // A round trip reproduces the identical bit pattern.
    let cases: [f64; 8] = [
        1.2345e+38,
        0.1,
        1.0 / 3.0,
        f64::MAX,
        f64::MIN_POSITIVE,
        5e-324,
        2.2250738585072011e-308,
        9007199254740993.0,
    ];
    for value in cases.iter() {
        let text = lexical::to_string(Float64::from_bits(value.to_bits()));
        let back: Float64 = lexical::parse(text.as_bytes());
        assert_eq!(back.to_bits(), value.to_bits());
    }
    let cases32: [f32; 6] = [1.2345e+38, 0.1, 16777217.0, f32::MAX, f32::MIN_POSITIVE, 1e-45];
    for value in cases32.iter() {
        let text = lexical::to_string(Float32::from_bits(value.to_bits()));
        let back: Float32 = lexical::parse(text.as_bytes());
        assert_eq!(back.to_bits(), value.to_bits());
    }
}

#[test]
fn roundtrip_exhaustive_sample_test() {
    // A structured walk over float shapes: every exponent with a few
    // mantissas, round-tripped exactly, in several radixes.
    let mut bits: u32 = 0x0000_0001;
    for _ in 0..500 {
        for radix in [2u8, 10, 16, 36] {
            let v = Float32::from_bits(bits);
            let text = lexical::to_string_digits(v, radix);
            let back: Float32 = lexical::parse_radix(text.as_bytes(), radix);
            assert_eq!(back.to_bits(), bits);
        }
        bits = bits.wrapping_mul(69069).wrapping_add(0x9E3779B9) % 0x7F80_0000;
        if bits == 0 {
            bits = 1;
        }
    }
}

#[test]
fn to_string_test() {
    assert_eq!(lexical::to_string(5i32), "5");
    assert_eq!(lexical::to_string(-17i64), "-17");
    assert_eq!(lexical::to_string(0u32), "0");
    assert_eq!(lexical::to_string(Float64::from_bits(0.0f64.to_bits())), "0.0");
    assert_eq!(lexical::to_string(Float64::from_bits((-0.0f64).to_bits())), "-0.0");
    assert_eq!(lexical::to_string(Float64::from_bits(1.5f64.to_bits())), "1.5");
    assert_eq!(lexical::to_string_digits(255u32, 16), "ff");
    assert_eq!(lexical::to_string_digits(5u32, 10), "5");
    assert_eq!(
        lexical::to_string_digits(Float32::from_bits(1.5f32.to_bits()), 2),
        "1.1"
    );
}

#[test]
fn sign_symmetry_test() {
    // format(-f) is `-` followed by format(f), for every kind of value.
    let cases: [f64; 6] = [1.5, 0.1, 1234.567, 1e300, 5e-324, f64::INFINITY];
    for value in cases.iter() {
        let pos = lexical::to_string(Float64::from_bits(value.to_bits()));
        let neg = lexical::to_string(Float64::from_bits((-value).to_bits()));
        assert_eq!(neg, format!("-{}", pos));
    }
}

#[test]
fn trimming_test() {
    // With trimming on, no output ends in `.0`; with it off, every
    // finite output has a decimal point.
    let cases: [f64; 5] = [1.0, 10.0, 0.5, 123.456, 1e300];
    for value in cases.iter() {
        let mut buffer = vec![0u8; lexical::ftoa::MAX_F64_SIZE];
        let v = Float64::from_bits(value.to_bits());
        let n = lexical::ftoa::f64toa_slice(v, 10, true, &mut buffer);
        assert!(!buffer[..n].ends_with(b".0"));
        let m = lexical::ftoa::f64toa_slice(v, 10, false, &mut buffer);
        assert!(buffer[..m].contains(&b'.'));
    }
}

#[test]
fn shortest_output_test() {
    // Dropping the last significant digit of the shortest form no
    // longer reads back as the same float.
    let cases: [f64; 4] = [0.1, 1.0 / 3.0, 1.2345e+38, 9007199254740993.0];
    for value in cases.iter() {
        let bytes = lexical::ftoa::f64toa(Float64::from_bits(value.to_bits()), 10, true);
        let digits: usize = bytes.iter().filter(|b| b.is_ascii_digit()).count();
        assert!(digits <= 17);
        // strip the last digit of the significand (before any
        // exponent marker) and re-parse
        let mantissa_end = bytes.iter().position(|b| *b == b'e').unwrap_or(bytes.len());
        let mut cut = None;
        for i in 0..mantissa_end {
            if bytes[i].is_ascii_digit() {
                cut = Some(i);
            }
        }
        let cut = cut.unwrap();
        let mut shorter = Vec::new();
        shorter.extend_from_slice(&bytes[..cut]);
        shorter.extend_from_slice(&bytes[cut + 1..]);
        let back: Float64 = lexical::parse(&shorter);
        assert_ne!(back.to_bits(), value.to_bits());
    }
}

#[test]
fn configuration_rejection_test() {
    // Radix 37 is rejected.
    assert!(ParseIntegerOptions::builder().radix(37).build().is_none());
    assert!(WriteIntegerOptions::builder().radix(37).build().is_none());
    assert!(ParseFloatOptions::builder().radix(37).build().is_none());
    assert!(WriteFloatOptions::builder().radix(37).build().is_none());
    // An exponent character that is a digit of the radix is rejected.
    assert!(ParseFloatOptions::builder().radix(16).exponent_char(b'e').build().is_none());
    assert!(WriteFloatOptions::builder().radix(16).exponent_char(b'e').build().is_none());
    // A long-infinity spelling shorter than short infinity is rejected.
    assert!(
        ParseFloatOptions::builder()
            .inf_string(b"inf".to_vec())
            .infinity_string(b"in".to_vec())
            .build()
            .is_none()
    );
    // Unsupported rounding kinds are rejected.
    assert!(ParseFloatOptions::builder().rounding(RoundingKind::TowardZero).build().is_none());
    // Bad special spellings are rejected.
    assert!(ParseFloatOptions::builder().nan_string(b"x".to_vec()).build().is_none());
    assert!(WriteFloatOptions::builder().inf_string(b"x".to_vec()).build().is_none());
    // The defaults build.
    assert!(ParseFloatOptions::builder().build().is_some());
}

#[test]
fn configured_spellings_test() {
    let options = WriteFloatOptions::builder()
        .nan_string(b"nope".to_vec())
        .inf_string(b"Inf".to_vec())
        .trim_floats(true)
        .build()
        .unwrap();
    let nan = lexical::ftoa::f64toa_with_options(Float64::from_bits(f64::NAN.to_bits()), &options);
    assert_eq!(nan, b"nope".to_vec());
    let inf = lexical::ftoa::f64toa_with_options(
        Float64::from_bits(f64::INFINITY.to_bits()),
        &options,
    );
    assert_eq!(inf, b"Inf".to_vec());
    let neg = lexical::ftoa::f64toa_with_options(
        Float64::from_bits(f64::NEG_INFINITY.to_bits()),
        &options,
    );
    assert_eq!(neg, b"-Inf".to_vec());
    let one = lexical::ftoa::f64toa_with_options(Float64::from_bits(1.0f64.to_bits()), &options);
    assert_eq!(one, b"1".to_vec());

    let parse_options = ParseFloatOptions::builder()
        .nan_string(b"nope".to_vec())
        .inf_string(b"Inf".to_vec())
        .infinity_string(b"Infinity".to_vec())
        .build()
        .unwrap();
    let v = lexical::atof::try_atof64_with_options(b"nope", &parse_options).unwrap();
    assert!(f64::from_bits(v.to_bits()).is_nan());
    let w = lexical::atof::try_atof64_with_options(b"-Infinity", &parse_options).unwrap();
    assert_eq!(f64::from_bits(w.to_bits()), f64::NEG_INFINITY);
}

#[test]
fn options_getters_test() {
    let pi = ParseIntegerOptions::hexadecimal();
    assert_eq!(pi.radix(), 16);
    assert_eq!(pi.format().digit_separator(), 0);
    let pf = ParseFloatOptions::hexadecimal();
    assert_eq!(pf.radix(), 16);
    assert_eq!(pf.exponent_char(), b'p');
    assert_eq!(pf.lossy(), false);
    assert_eq!(pf.rounding(), RoundingKind::NearestTieEven);
    assert_eq!(pf.nan_string(), &b"NaN".to_vec());
    assert_eq!(pf.inf_string(), &b"inf".to_vec());
    assert_eq!(pf.infinity_string(), &b"infinity".to_vec());
    let wi = WriteIntegerOptions::binary();
    assert_eq!(wi.radix(), 2);
    let wfh = WriteFloatOptions::hexadecimal();
    assert_eq!(wfh.radix(), 16);
    assert_eq!(wfh.exponent_char(), b'p');
    let wf = WriteFloatOptions::decimal();
    assert_eq!(wf.radix(), 10);
    assert_eq!(wf.exponent_char(), b'e');
    assert_eq!(wf.trim_floats(), false);
    assert_eq!(wf.nan_string(), &b"NaN".to_vec());
    assert_eq!(wf.inf_string(), &b"inf".to_vec());
}

#[test]
fn subnormal_and_overflow_parse_test() {
    let tiny: Float64 = lexical::parse(b"4.9e-324");
    assert_eq!(tiny.to_bits(), 1u64);
    let zero: Float64 = lexical::parse(b"1e-400");
    assert_eq!(f64::from_bits(zero.to_bits()), 0.0);
    let huge: Float64 = lexical::parse(b"1e400");
    assert_eq!(f64::from_bits(huge.to_bits()), f64::INFINITY);
    let neg_huge: Float64 = lexical::parse(b"-1e400");
    assert_eq!(f64::from_bits(neg_huge.to_bits()), f64::NEG_INFINITY);
    let max: Float64 = lexical::parse(b"1.7976931348623157e308");
    assert_eq!(max.to_bits(), f64::MAX.to_bits());
}

#[test]
fn exponent_in_radix_test() {
    // The exponent section is written and read in the same radix as
    // the digits.
    let v = Float32::from_bits(0.000000012345f32.to_bits());
    let text = lexical::to_string_digits(v, 2);
    assert_eq!(text, "1.1010100000101011110001e-11011");
    let back: Float32 = lexical::parse_radix(text.as_bytes(), 2);
    assert_eq!(back.to_bits(), v.to_bits());
}

#[test]
fn integer_error_offsets_test() {
    assert_eq!(lexical::try_parse::<u32>(b"123abc"), Err(3));
    assert_eq!(lexical::try_parse::<u32>(b"abc"), Err(0));
    assert_eq!(lexical::try_parse::<i32>(b"-"), Err(1));
    assert_eq!(lexical::try_parse::<i32>(b"+5"), Ok(5));
    assert_eq!(lexical::parse_radix::<u32>(b"zz", 36), 35 * 36 + 35);
    assert_eq!(lexical::try_parse::<u64>(b"00042"), Ok(42));
}

#[test]
fn float_grammar_edges_test() {
    let half: Float64 = lexical::parse(b".5");
    assert_eq!(f64::from_bits(half.to_bits()), 0.5);
    let exp: Float64 = lexical::parse(b"1e5");
    assert_eq!(f64::from_bits(exp.to_bits()), 1e5);
    let plus_exp: Float64 = lexical::parse(b"2.5e+2");
    assert_eq!(f64::from_bits(plus_exp.to_bits()), 250.0);
    // a bare exponent marker is not consumed
    assert_eq!(lexical::try_parse::<Float64>(b"1e").unwrap_err(), 1);
    assert_eq!(lexical::try_parse::<Float64>(b"1e+").unwrap_err(), 1);
    let tiny: Float64 = lexical::parse(b"0.0000001");
    assert_eq!(f64::from_bits(tiny.to_bits()), 0.0000001);
    // garbage after a valid prefix is ignored by the unchecked entry
    let cut: Float64 = lexical::parse(b"2.5x7");
    assert_eq!(f64::from_bits(cut.to_bits()), 2.5);
}

#[test]
fn integer_roundtrip_test() {
    let values: [u64; 7] = [0, 1, 9, 36, 255, 1234567890123456789, u64::MAX];
    for v in values.iter() {
        for radix in [2u8, 8, 10, 16, 36] {
            let text = lexical::to_string_digits(*v, radix);
            let back: u64 = lexical::parse_radix(text.as_bytes(), radix);
            assert_eq!(back, *v);
        }
    }
    for v in [-1i64, i64::MIN, i64::MAX, 0, 42] {
        let text = lexical::to_string(v);
        let back: i64 = lexical::parse(text.as_bytes());
        assert_eq!(back, v);
    }
}

#[test]
fn digit_separator_test() {
    // An enabled separator is skipped strictly between digits; any
    // other placement ends the number.
    let format = lexical::NumberFormat::ignore(b'_').unwrap();
    let options = ParseFloatOptions::builder().format(format).build().unwrap();
    let v = lexical::atof::try_atof64_with_options(b"1_234.5_6", &options).unwrap();
    assert_eq!(f64::from_bits(v.to_bits()), 1234.56);
    let w = lexical::atof::try_atof64_with_options(b"1_0e1_0", &options).unwrap();
    assert_eq!(f64::from_bits(w.to_bits()), 1e11);
    // leading, trailing and doubled separators are malformed
    assert_eq!(lexical::atof::try_atof64_with_options(b"_1", &options).unwrap_err(), 0);
    assert_eq!(lexical::atof::try_atof64_with_options(b"1_", &options).unwrap_err(), 1);
    assert_eq!(lexical::atof::try_atof64_with_options(b"1__2", &options).unwrap_err(), 1);
    // without a configured separator the byte is simply invalid
    let plain = ParseFloatOptions::builder().build().unwrap();
    assert_eq!(lexical::atof::try_atof64_with_options(b"1_234", &plain).unwrap_err(), 1);
}

#[test]
fn all_digit_parse_exact_test() {
    // Plain digit strings are read exactly, in every radix.
    let v: Float64 = lexical::try_parse_radix(b"10201", 3).unwrap();
    assert_eq!(f64::from_bits(v.to_bits()), 100.0);
    let w: Float64 = lexical::try_parse_radix(b"zz", 36).unwrap();
    assert_eq!(f64::from_bits(w.to_bits()), 1295.0);
    // one above 2^53 ties to the even neighbor
    let big: Float64 = lexical::try_parse(b"9007199254740993").unwrap();
    assert_eq!(big.to_bits(), 9007199254740992.0f64.to_bits());
    let odd: Float64 = lexical::try_parse(b"9007199254740995").unwrap();
    assert_eq!(f64::from_bits(odd.to_bits()), 9007199254740996.0);
}
