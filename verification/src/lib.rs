//! Lexical conversion routines between binary numbers and their textual
//! representations, in arbitrary radixes from 2 to 36.
//!
//! Floating-point values are handled through their IEEE-754 bit patterns
//! ([`Float32`], [`Float64`]), so that every conversion is plain integer
//! arithmetic with a verified contract.  The high-level API converts a
//! number to a decimal string and reads one back, checked or unchecked;
//! the modules underneath expose the configurable conversions: the
//! format path with its shortest-digit generator, the exact parse path,
//! and the validated option sets.

use vstd::prelude::*;

pub mod atof;
pub mod atoi;
pub mod bignum;
pub mod digit;
pub mod float;
pub mod ftoa;
pub mod itoa;
pub mod options;

verus! {

pub use crate::digit::is_digit;
pub use crate::float::Float32;
pub use crate::float::Float64;
pub use crate::options::NumberFormat;
pub use crate::options::ParseFloatOptions;
pub use crate::options::ParseFloatOptionsBuilder;
pub use crate::options::ParseIntegerOptions;
pub use crate::options::ParseIntegerOptionsBuilder;
pub use crate::options::RoundingKind;
pub use crate::options::WriteFloatOptions;
pub use crate::options::WriteFloatOptionsBuilder;
pub use crate::options::WriteIntegerOptions;
pub use crate::options::WriteIntegerOptionsBuilder;

/// Relies on `alloc::string::String::from_utf8_lossy`: ASCII bytes are
/// valid UTF-8 and come back as the same characters, one per byte.
#[verifier::external_body]
fn bytes_to_string(v: Vec<u8>) -> (r: String)
    requires
        forall|i: int| 0 <= i < v@.len() ==> v@[i] < 128,
    ensures
        r@ == v@.map_values(|b: u8| b as char),
{
    String::from_utf8_lossy(&v).into_owned()
}

/// A number that can be read from a byte string.
pub trait Aton: Sized {
    /// What the unchecked read returns for this type.
    spec fn parses(bytes: Seq<u8>, radix: u32, r: Self) -> bool;

    /// What the checked read returns for this type.
    spec fn try_parses(bytes: Seq<u8>, radix: u32, r: Result<Self, usize>) -> bool;

    /// Read the longest valid prefix, never failing.
    fn deserialize_from_bytes(bytes: &[u8], radix: u8) -> (r: Self)
        requires
            crate::options::valid_radix(radix),
        ensures
            Self::parses(bytes@, radix as u32, r),
    ;

    /// Read the whole input, or report the offset of the first byte
    /// that stopped the parse.
    fn try_deserialize_from_bytes(bytes: &[u8], radix: u8) -> (r: Result<Self, usize>)
        requires
            crate::options::valid_radix(radix),
        ensures
            Self::try_parses(bytes@, radix as u32, r),
    ;
}

/// A number that can be written as a byte string.
pub trait Ntoa: Sized {
    /// What the written bytes look like for this type.
    spec fn text_ok(self, radix: u32, out: Seq<u8>) -> bool;

    /// Write the number in the given radix.
    fn serialize_to_bytes(self, radix: u8) -> (r: Vec<u8>)
        requires
            crate::options::valid_radix(radix),
        ensures
            Self::text_ok(self, radix as u32, r@),
            forall|i: int| 0 <= i < r@.len() ==> r@[i] < 128,
    ;
}

impl Aton for u64 {
    open spec fn parses(bytes: Seq<u8>, radix: u32, r: Self) -> bool {
        exists|n: int|
            {
                &&& #[trigger] crate::atoi::digit_span(bytes, radix, n)
                &&& r == crate::atoi::wrap_fold64(bytes.take(n), radix)
            }
    }

    open spec fn try_parses(bytes: Seq<u8>, radix: u32, r: Result<Self, usize>) -> bool {
        &&& (r is Ok <==> bytes.len() > 0 && (forall|j: int|
            0 <= j < bytes.len() ==> is_digit(#[trigger] bytes[j], radix)))
        &&& (r matches Ok(v) ==> Self::parses(bytes, radix, v))
        &&& (r matches Err(i) ==> crate::atoi::digit_span(bytes, radix, i as int))
    }

    fn deserialize_from_bytes(bytes: &[u8], radix: u8) -> (r: Self) {
        let (value, n) = crate::atoi::atou64_core(bytes, radix as u32);
        proof {
            assert(crate::atoi::digit_span(bytes@, radix as u32, n as int));
        }
        value
    }

    fn try_deserialize_from_bytes(bytes: &[u8], radix: u8) -> (r: Result<Self, usize>) {
        let (value, n) = crate::atoi::atou64_core(bytes, radix as u32);
        if n == bytes.len() && n > 0 {
            proof {
                assert(crate::atoi::digit_span(bytes@, radix as u32, n as int));
            }
            Ok(value)
        } else {
            Err(n)
        }
    }
}

impl Aton for u32 {
    open spec fn parses(bytes: Seq<u8>, radix: u32, r: Self) -> bool {
        exists|n: int|
            {
                &&& #[trigger] crate::atoi::digit_span(bytes, radix, n)
                &&& r == crate::atoi::wrap_fold64(bytes.take(n), radix) % 0x1_0000_0000
            }
    }

    open spec fn try_parses(bytes: Seq<u8>, radix: u32, r: Result<Self, usize>) -> bool {
        &&& (r is Ok <==> bytes.len() > 0 && (forall|j: int|
            0 <= j < bytes.len() ==> is_digit(#[trigger] bytes[j], radix)))
        &&& (r matches Ok(v) ==> Self::parses(bytes, radix, v))
        &&& (r matches Err(i) ==> crate::atoi::digit_span(bytes, radix, i as int))
    }

    fn deserialize_from_bytes(bytes: &[u8], radix: u8) -> (r: Self) {
        let (value, n) = crate::atoi::atou64_core(bytes, radix as u32);
        proof {
            assert(crate::atoi::digit_span(bytes@, radix as u32, n as int));
        }
        (value % 0x1_0000_0000) as u32
    }

    fn try_deserialize_from_bytes(bytes: &[u8], radix: u8) -> (r: Result<Self, usize>) {
        let (value, n) = crate::atoi::atou64_core(bytes, radix as u32);
        if n == bytes.len() && n > 0 {
            proof {
                assert(crate::atoi::digit_span(bytes@, radix as u32, n as int));
            }
            Ok((value % 0x1_0000_0000) as u32)
        } else {
            Err(n)
        }
    }
}

/// A full signed digit span reaching the end of the input is the same
/// thing as the whole input being one optionally signed digit string.
proof fn lemma_signed_checked(bytes: Seq<u8>, radix: u32, n: int, has_digits: bool)
    requires
        crate::atoi::signed_digit_span(bytes, radix, n),
        has_digits == (if bytes.len() > 0 && (bytes[0] == crate::ftoa::CH_MINUS || bytes[0]
            == crate::atof::CH_PLUS) {
            n > 1
        } else {
            n > 0
        }),
    ensures
        (n == bytes.len() && has_digits) <==> crate::atoi::signed_digit_input(bytes, radix),
{
    if bytes.len() > 0 && (bytes[0] == crate::ftoa::CH_MINUS || bytes[0]
        == crate::atof::CH_PLUS) {
        let rest = bytes.skip(1);
        if crate::atoi::signed_digit_input(bytes, radix) {
            // every byte past the sign is a digit, so the span cannot
            // stop short of the end
            assert forall|j: int| 0 <= j < rest.len() implies is_digit(
                #[trigger] rest[j],
                radix,
            ) by {
                assert(rest[j] == bytes[j + 1]);
            }
            if n - 1 < rest.len() {
                assert(!is_digit(rest[n - 1], radix));
            }
            assert(n == bytes.len() && has_digits);
        }
        if n == bytes.len() && has_digits {
            // the span covers every byte past the sign, so each one is
            // a digit
            assert forall|j: int| 1 <= j < bytes.len() implies is_digit(
                #[trigger] bytes[j],
                radix,
            ) by {
                assert(bytes[j] == rest[j - 1]);
            }
            assert(crate::atoi::signed_digit_input(bytes, radix));
        }
    } else {
        if crate::atoi::signed_digit_input(bytes, radix) {
            if n < bytes.len() {
                assert(!is_digit(bytes[n], radix));
            }
        }
    }
}

impl Aton for i64 {
    open spec fn parses(bytes: Seq<u8>, radix: u32, r: Self) -> bool {
        exists|value: u64, n: int|
            {
                &&& #[trigger] crate::atoi::atou64_spec(bytes, radix, value, n)
                &&& r == value as i64
            }
    }

    open spec fn try_parses(bytes: Seq<u8>, radix: u32, r: Result<Self, usize>) -> bool {
        &&& (r is Ok <==> crate::atoi::signed_digit_input(bytes, radix))
        &&& (r matches Ok(v) ==> Self::parses(bytes, radix, v))
        &&& (r matches Err(i) ==> crate::atoi::signed_digit_span(bytes, radix, i as int))
    }

    fn deserialize_from_bytes(bytes: &[u8], radix: u8) -> (r: Self) {
        let (value, n, _neg) = crate::atoi::atoi_signed_core(bytes, radix as u32);
        proof {
            assert(crate::atoi::atou64_spec(bytes@, radix as u32, value, n as int));
        }
        value as i64
    }

    fn try_deserialize_from_bytes(bytes: &[u8], radix: u8) -> (r: Result<Self, usize>) {
        let (value, n, _neg) = crate::atoi::atoi_signed_core(bytes, radix as u32);
        let has_digits = if bytes.len() > 0 && (bytes[0] == crate::ftoa::CH_MINUS || bytes[0]
            == crate::atof::CH_PLUS) {
            n > 1
        } else {
            n > 0
        };
        proof {
            lemma_signed_checked(bytes@, radix as u32, n as int, has_digits);
        }
        if n == bytes.len() && has_digits {
            proof {
                assert(crate::atoi::atou64_spec(bytes@, radix as u32, value, n as int));
            }
            Ok(value as i64)
        } else {
            Err(n)
        }
    }
}

impl Aton for i32 {
    open spec fn parses(bytes: Seq<u8>, radix: u32, r: Self) -> bool {
        exists|value: u64, n: int|
            {
                &&& #[trigger] crate::atoi::atou64_spec(bytes, radix, value, n)
                &&& r == (value as u32) as i32
            }
    }

    open spec fn try_parses(bytes: Seq<u8>, radix: u32, r: Result<Self, usize>) -> bool {
        &&& (r is Ok <==> crate::atoi::signed_digit_input(bytes, radix))
        &&& (r matches Ok(v) ==> Self::parses(bytes, radix, v))
        &&& (r matches Err(i) ==> crate::atoi::signed_digit_span(bytes, radix, i as int))
    }

    fn deserialize_from_bytes(bytes: &[u8], radix: u8) -> (r: Self) {
        let (value, n, _neg) = crate::atoi::atoi_signed_core(bytes, radix as u32);
        proof {
            assert(crate::atoi::atou64_spec(bytes@, radix as u32, value, n as int));
        }
        (value as u32) as i32
    }

    fn try_deserialize_from_bytes(bytes: &[u8], radix: u8) -> (r: Result<Self, usize>) {
        let (value, n, _neg) = crate::atoi::atoi_signed_core(bytes, radix as u32);
        let has_digits = if bytes.len() > 0 && (bytes[0] == crate::ftoa::CH_MINUS || bytes[0]
            == crate::atof::CH_PLUS) {
            n > 1
        } else {
            n > 0
        };
        proof {
            lemma_signed_checked(bytes@, radix as u32, n as int, has_digits);
        }
        if n == bytes.len() && has_digits {
            proof {
                assert(crate::atoi::atou64_spec(bytes@, radix as u32, value, n as int));
            }
            Ok((value as u32) as i32)
        } else {
            Err(n)
        }
    }
}

impl Aton for Float32 {
    open spec fn parses(bytes: Seq<u8>, radix: u32, r: Self) -> bool {
        bytes == crate::options::default_nan() ==> crate::float::f32_is_nan(r.spec_bits())
    }

    open spec fn try_parses(bytes: Seq<u8>, radix: u32, r: Result<Self, usize>) -> bool {
        &&& (r matches Err(i) ==> i <= bytes.len())
        &&& (crate::atof::all_digit_input(
            bytes,
            radix,
            crate::options::default_nan(),
            crate::options::default_inf(),
            crate::options::default_infinity(),
        ) ==> r is Ok)
        &&& (bytes.len() == 0 ==> r == Err::<Float32, usize>(0usize))
        &&& ((crate::atof::all_digit_input(
            bytes,
            radix,
            crate::options::default_nan(),
            crate::options::default_inf(),
            crate::options::default_infinity(),
        ) && bytes.len() <= crate::atof::MAX_SIG_DIGITS) ==> (r matches Ok(v)
            && !crate::float::f32_is_negative(v.spec_bits()) && (crate::float::f32_is_zero(
            v.spec_bits(),
        ) ==> crate::atof::nearest_value_fit(
            crate::atof::bytes_digit_value(bytes, radix) as int,
            0u64,
            -149,
            -149,
        )) && (crate::float::f32_is_finite_nonzero(v.spec_bits())
            ==> crate::atof::nearest_value_fit(
            crate::atof::bytes_digit_value(bytes, radix) as int,
            crate::float::f32_mantissa(v.spec_bits()) as u64,
            crate::float::f32_exponent(v.spec_bits()),
            -149,
        ))))
    }

    fn deserialize_from_bytes(bytes: &[u8], radix: u8) -> (r: Self) {
        crate::atof::atof32_slice(radix, bytes)
    }

    fn try_deserialize_from_bytes(bytes: &[u8], radix: u8) -> (r: Result<Self, usize>) {
        crate::atof::try_atof32_slice(radix, bytes)
    }
}

impl Aton for Float64 {
    open spec fn parses(bytes: Seq<u8>, radix: u32, r: Self) -> bool {
        bytes == crate::options::default_nan() ==> crate::float::f64_is_nan(r.spec_bits())
    }

    open spec fn try_parses(bytes: Seq<u8>, radix: u32, r: Result<Self, usize>) -> bool {
        &&& (r matches Err(i) ==> i <= bytes.len())
        &&& (crate::atof::all_digit_input(
            bytes,
            radix,
            crate::options::default_nan(),
            crate::options::default_inf(),
            crate::options::default_infinity(),
        ) ==> r is Ok)
        &&& (bytes.len() == 0 ==> r == Err::<Float64, usize>(0usize))
        &&& ((crate::atof::all_digit_input(
            bytes,
            radix,
            crate::options::default_nan(),
            crate::options::default_inf(),
            crate::options::default_infinity(),
        ) && bytes.len() <= crate::atof::MAX_SIG_DIGITS) ==> (r matches Ok(v)
            && !crate::float::f64_is_negative(v.spec_bits()) && (crate::float::f64_is_zero(
            v.spec_bits(),
        ) ==> crate::atof::nearest_value_fit(
            crate::atof::bytes_digit_value(bytes, radix) as int,
            0u64,
            -1074,
            -1074,
        )) && (crate::float::f64_is_finite_nonzero(v.spec_bits())
            ==> crate::atof::nearest_value_fit(
            crate::atof::bytes_digit_value(bytes, radix) as int,
            crate::float::f64_mantissa(v.spec_bits()) as u64,
            crate::float::f64_exponent(v.spec_bits()),
            -1074,
        ))))
    }

    fn deserialize_from_bytes(bytes: &[u8], radix: u8) -> (r: Self) {
        crate::atof::atof64_slice(radix, bytes)
    }

    fn try_deserialize_from_bytes(bytes: &[u8], radix: u8) -> (r: Result<Self, usize>) {
        crate::atof::try_atof64_slice(radix, bytes)
    }
}

impl Ntoa for u64 {
    open spec fn text_ok(self, radix: u32, out: Seq<u8>) -> bool {
        out == crate::itoa::spec_digits(self as nat, radix as nat)
    }

    fn serialize_to_bytes(self, radix: u8) -> (r: Vec<u8>) {
        let r = crate::itoa::u64toa_radix(self, radix as u32);
        proof {
            assert(forall|i: int|
                0 <= i < r@.len() ==> is_digit(#[trigger] r@[i], radix as u32) && r@[i] < 128);
        }
        r
    }
}

impl Ntoa for u32 {
    open spec fn text_ok(self, radix: u32, out: Seq<u8>) -> bool {
        out == crate::itoa::spec_digits(self as nat, radix as nat)
    }

    fn serialize_to_bytes(self, radix: u8) -> (r: Vec<u8>) {
        let r = crate::itoa::u64toa_radix(self as u64, radix as u32);
        proof {
            assert(forall|i: int|
                0 <= i < r@.len() ==> is_digit(#[trigger] r@[i], radix as u32) && r@[i] < 128);
        }
        r
    }
}

impl Ntoa for i64 {
    open spec fn text_ok(self, radix: u32, out: Seq<u8>) -> bool {
        if self >= 0 {
            out == crate::itoa::spec_digits(self as nat, radix as nat)
        } else {
            out == seq![crate::ftoa::CH_MINUS] + crate::itoa::spec_digits(
                (-(self as int)) as nat,
                radix as nat,
            )
        }
    }

    fn serialize_to_bytes(self, radix: u8) -> (r: Vec<u8>) {
        if self >= 0 {
            let r = crate::itoa::u64toa_radix(self as u64, radix as u32);
            proof {
                assert(forall|i: int|
                    0 <= i < r@.len() ==> is_digit(#[trigger] r@[i], radix as u32) && r@[i]
                        < 128);
            }
            r
        } else {
            let mag: u64 = if self == i64::MIN {
                0x8000_0000_0000_0000
            } else {
                (-self) as u64
            };
            let mut out: Vec<u8> = Vec::new();
            out.push(crate::ftoa::CH_MINUS);
            let mut digits = crate::itoa::u64toa_radix(mag, radix as u32);
            let ghost dg = digits@;
            out.append(&mut digits);
            proof {
                assert(out@ =~= seq![crate::ftoa::CH_MINUS] + dg);
                assert(forall|i: int|
                    0 <= i < dg.len() ==> is_digit(#[trigger] dg[i], radix as u32) && dg[i]
                        < 128);
            }
            out
        }
    }
}

impl Ntoa for i32 {
    open spec fn text_ok(self, radix: u32, out: Seq<u8>) -> bool {
        if self >= 0 {
            out == crate::itoa::spec_digits(self as nat, radix as nat)
        } else {
            out == seq![crate::ftoa::CH_MINUS] + crate::itoa::spec_digits(
                (-(self as int)) as nat,
                radix as nat,
            )
        }
    }

    fn serialize_to_bytes(self, radix: u8) -> (r: Vec<u8>) {
        (self as i64).serialize_to_bytes(radix)
    }
}

impl Ntoa for Float32 {
    open spec fn text_ok(self, radix: u32, out: Seq<u8>) -> bool {
        crate::ftoa::float_text_ok(
            crate::float::f32_parts_spec(self.spec_bits()),
            radix,
            if radix >= 15 {
                crate::options::CH_CARET
            } else {
                crate::options::CH_LOWER_E
            },
            false,
            crate::options::default_nan(),
            crate::options::default_inf(),
            crate::ftoa::MAX_DIGITS_F32 as int,
            out,
        )
    }

    fn serialize_to_bytes(self, radix: u8) -> (r: Vec<u8>) {
        let r = crate::ftoa::f32toa(self, radix, false);
        proof {
            lemma_float_bytes_ascii(
                crate::float::f32_parts_spec(self.spec_bits()),
                radix as u32,
                r@,
                crate::ftoa::MAX_DIGITS_F32 as int,
            );
        }
        r
    }
}

impl Ntoa for Float64 {
    open spec fn text_ok(self, radix: u32, out: Seq<u8>) -> bool {
        crate::ftoa::float_text_ok(
            crate::float::f64_parts_spec(self.spec_bits()),
            radix,
            if radix >= 15 {
                crate::options::CH_CARET
            } else {
                crate::options::CH_LOWER_E
            },
            false,
            crate::options::default_nan(),
            crate::options::default_inf(),
            crate::ftoa::MAX_DIGITS_F64 as int,
            out,
        )
    }

    fn serialize_to_bytes(self, radix: u8) -> (r: Vec<u8>) {
        let r = crate::ftoa::f64toa(self, radix, false);
        proof {
            lemma_float_bytes_ascii(
                crate::float::f64_parts_spec(self.spec_bits()),
                radix as u32,
                r@,
                crate::ftoa::MAX_DIGITS_F64 as int,
            );
        }
        r
    }
}

/// Every byte a float writes with the default spellings is ASCII: the
/// spellings, the sign, the digits and both default exponent
/// characters all are.
proof fn lemma_float_bytes_ascii(
    p: crate::float::FloatParts,
    radix: u32,
    out: Seq<u8>,
    max_digits: int,
)
    requires
        crate::ftoa::float_text_ok(
            p,
            radix,
            if radix >= 15 {
                crate::options::CH_CARET
            } else {
                crate::options::CH_LOWER_E
            },
            false,
            crate::options::default_nan(),
            crate::options::default_inf(),
            max_digits,
            out,
        ),
    ensures
        forall|i: int| 0 <= i < out.len() ==> out[i] < 128,
{
    let echar = if radix >= 15 {
        crate::options::CH_CARET
    } else {
        crate::options::CH_LOWER_E
    };
    assert(echar < 128);
    let nan = crate::options::default_nan();
    let inf = crate::options::default_inf();
    assert(nan[0] == 78 && nan[1] == 97 && nan[2] == 78 && nan.len() == 3);
    assert(inf[0] == 105 && inf[1] == 110 && inf[2] == 102 && inf.len() == 3);
    match p.kind {
        crate::float::FloatKind::Nan => {
            if p.negative {
                assert(out =~= seq![crate::ftoa::CH_MINUS] + nan);
                assert(forall|i: int| 0 <= i < out.len() ==> out[i] < 128) by {
                    assert(out[0] == 45 && out[1] == 78 && out[2] == 97 && out[3] == 78);
                }
            } else {
                assert(out =~= nan);
            }
        },
        crate::float::FloatKind::Infinite => {
            if p.negative {
                assert(out =~= seq![crate::ftoa::CH_MINUS] + inf);
                assert(forall|i: int| 0 <= i < out.len() ==> out[i] < 128) by {
                    assert(out[0] == 45 && out[1] == 105 && out[2] == 110 && out[3] == 102);
                }
            } else {
                assert(out =~= inf);
            }
        },
        crate::float::FloatKind::Zero => {
        },
        crate::float::FloatKind::Finite => {
            assert(forall|i: int| 0 <= i < out.len() ==> (#[trigger] out[i]) < 128 || out[i]
                == echar);
        },
    }
}

/// High-level conversion of a number to a decimal-encoded string.
pub fn to_string<N: Ntoa>(n: N) -> (r: String)
    ensures
        exists|bv: Seq<u8>|
            #[trigger] N::text_ok(n, 10, bv) && r@ == bv.map_values(|b: u8| b as char),
{
    to_string_digits(n, 10)
}

/// High-level conversion of a number to a string with a custom radix.
pub fn to_string_digits<N: Ntoa>(n: N, base: u8) -> (r: String)
    requires
        crate::options::valid_radix(base),
    ensures
        exists|bv: Seq<u8>|
            #[trigger] N::text_ok(n, base as u32, bv) && r@ == bv.map_values(|b: u8| b as char),
{
    let bytes = n.serialize_to_bytes(base);
    let ghost bv = bytes@;
    let r = bytes_to_string(bytes);
    proof {
        assert(N::text_ok(n, base as u32, bv));
    }
    r
}

/// High-level conversion of decimal-encoded bytes to a number; always
/// returns a number, parsing until invalid digits are found.
pub fn parse<N: Aton>(bytes: &[u8]) -> (r: N)
    ensures
        N::parses(bytes@, 10, r),
{
    parse_radix::<N>(bytes, 10)
}

/// High-level conversion of bytes to a number with a custom radix;
/// always returns a number, parsing until invalid digits are found.
pub fn parse_radix<N: Aton>(bytes: &[u8], radix: u8) -> (r: N)
    requires
        crate::options::valid_radix(radix),
    ensures
        N::parses(bytes@, radix as u32, r),
{
    N::deserialize_from_bytes(bytes, radix)
}

/// High-level checked conversion of decimal-encoded bytes to a number:
/// a value only if the entire input parses, else the offset of the
/// first byte that stopped the parse.
pub fn try_parse<N: Aton>(bytes: &[u8]) -> (r: Result<N, usize>)
    ensures
        N::try_parses(bytes@, 10, r),
{
    try_parse_radix::<N>(bytes, 10)
}

/// High-level checked conversion of bytes to a number with a custom
/// radix: a value only if the entire input parses, else the offset of
/// the first byte that stopped the parse.
pub fn try_parse_radix<N: Aton>(bytes: &[u8], radix: u8) -> (r: Result<N, usize>)
    requires
        crate::options::valid_radix(radix),
    ensures
        N::try_parses(bytes@, radix as u32, r),
{
    N::try_deserialize_from_bytes(bytes, radix)
}

} // verus!
