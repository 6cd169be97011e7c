//! Configuration options for parsing and formatting numbers.
//!
//! Each option set is built once through a builder whose `build` step
//! re-checks every cross-field invariant and returns `None` on the first
//! violation, so a constructed option value is always valid.

use vstd::prelude::*;
use crate::digit::is_digit;

verus! {

// ASCII bytes the validators care about.
pub const CH_UPPER_N: u8 = 78;

pub const CH_LOWER_N: u8 = 110;

pub const CH_UPPER_I: u8 = 73;

pub const CH_LOWER_I: u8 = 105;

/// ASCII `e`, the default exponent marker.
pub const CH_LOWER_E: u8 = 101;

/// ASCII `^`, the exponent marker for radixes where `e` is a digit.
pub const CH_CARET: u8 = 94;

/// Default radix for every option set.
pub const DEFAULT_RADIX: u8 = 10;

/// The default spelling of Not-a-Number, `NaN`.
pub open spec fn default_nan() -> Seq<u8> {
    seq![CH_UPPER_N, 97u8, CH_UPPER_N]
}

/// The default spelling of short infinity, `inf`.
pub open spec fn default_inf() -> Seq<u8> {
    seq![CH_LOWER_I, CH_LOWER_N, 102u8]
}

/// The default spelling of long infinity, `infinity`.
pub open spec fn default_infinity() -> Seq<u8> {
    seq![CH_LOWER_I, CH_LOWER_N, 102u8, CH_LOWER_I, CH_LOWER_N, CH_LOWER_I, 116u8, 121u8]
}

/// The byte sequence starts with `N` or `n`.
pub open spec fn starts_with_n_spec(s: Seq<u8>) -> bool {
    s.len() > 0 && (s[0] == CH_UPPER_N || s[0] == CH_LOWER_N)
}

/// The byte sequence starts with `I` or `i`.
pub open spec fn starts_with_i_spec(s: Seq<u8>) -> bool {
    s.len() > 0 && (s[0] == CH_UPPER_I || s[0] == CH_LOWER_I)
}

/// A radix the library accepts.
pub open spec fn valid_radix(radix: u8) -> bool {
    2 <= radix <= 36
}

/// Check if a byte array starts with a case-insensitive `N`.
pub fn starts_with_n(bytes: &[u8]) -> (r: bool)
    ensures
        r == starts_with_n_spec(bytes@),
{
    if bytes.len() == 0 {
        false
    } else {
        bytes[0] == CH_UPPER_N || bytes[0] == CH_LOWER_N
    }
}

/// Check if a byte array starts with a case-insensitive `I`.
pub fn starts_with_i(bytes: &[u8]) -> (r: bool)
    ensures
        r == starts_with_i_spec(bytes@),
{
    if bytes.len() == 0 {
        false
    } else {
        bytes[0] == CH_UPPER_I || bytes[0] == CH_LOWER_I
    }
}

/// Get the radix if it is valid, that is between 2 and 36.
pub fn to_radix(radix: u8) -> (r: Option<u32>)
    ensures
        r == (if valid_radix(radix) {
            Some(radix as u32)
        } else {
            None::<u32>
        }),
{
    if 2 <= radix && radix <= 36 {
        Some(radix as u32)
    } else {
        None
    }
}

/// The default exponent marker for a radix: `e`, or `^` once `e` itself
/// is a digit of the radix.
pub fn exponent_notation_char(radix: u32) -> (r: u8)
    ensures
        r == (if radix >= 15 {
            CH_CARET
        } else {
            CH_LOWER_E
        }),
{
    if radix >= 15 {
        CH_CARET
    } else {
        CH_LOWER_E
    }
}

/// Get the exponent character if it is valid for the radix, that is not
/// itself a digit of the radix.
pub fn to_exponent_char(exponent_char: u8, radix: u32) -> (r: Option<u8>)
    requires
        2 <= radix <= 36,
    ensures
        r == (if !is_digit(exponent_char, radix) {
            Some(exponent_char)
        } else {
            None::<u8>
        }),
{
    match crate::digit::byte_to_digit(exponent_char, radix) {
        None => Some(exponent_char),
        _ => None,
    }
}

/// A digit-grouping rule set: the single separator byte that may appear
/// between digits, with 0 meaning that no separator is accepted.
#[derive(Debug, Clone, Copy, PartialEq, Eq, Structural)]
pub struct NumberFormat {
    digit_separator: u8,
}

impl NumberFormat {
    /// The separator byte this format ignores between digits.
    pub closed spec fn spec_digit_separator(&self) -> u8 {
        self.digit_separator
    }

    /// The standard format: no digit separator at all.
    pub fn standard() -> (r: NumberFormat)
        ensures
            r.spec_digit_separator() == 0,
    {
        NumberFormat { digit_separator: 0 }
    }

    /// A format that ignores the given separator byte between digits.
    pub fn ignore(digit_separator: u8) -> (r: Option<NumberFormat>)
        ensures
            r matches Some(f) && f.spec_digit_separator() == digit_separator,
    {
        Some(NumberFormat { digit_separator })
    }

    /// Get the digit separator.
    pub fn digit_separator(&self) -> (r: u8)
        ensures
            r == self.spec_digit_separator(),
    {
        self.digit_separator
    }
}

/// Get the number format if it is valid for the radix: the digit
/// separator must not be a digit of the radix.
pub fn to_format_integer(format: NumberFormat, radix: u32) -> (r: Option<NumberFormat>)
    requires
        2 <= radix <= 36,
    ensures
        r == (if !is_digit(format.spec_digit_separator(), radix) {
            Some(format)
        } else {
            None::<NumberFormat>
        }),
{
    let digit_separator = format.digit_separator();
    match crate::digit::byte_to_digit(digit_separator, radix) {
        None => Some(format),
        _ => None,
    }
}

/// Get the number format if it is valid for a float: the digit separator
/// must not be a digit of the radix, nor equal the exponent character.
pub fn to_format_float(format: NumberFormat, radix: u32, exponent_char: u8) -> (r: Option<
    NumberFormat,
>)
    requires
        2 <= radix <= 36,
    ensures
        r == (if !is_digit(format.spec_digit_separator(), radix)
            && format.spec_digit_separator() != exponent_char {
            Some(format)
        } else {
            None::<NumberFormat>
        }),
{
    let digit_separator = format.digit_separator();
    let not_a_digit = crate::digit::byte_to_digit(digit_separator, radix).is_none();
    if not_a_digit && digit_separator != exponent_char {
        Some(format)
    } else {
        None
    }
}

/// The tie-breaking rule applied when a textual value falls exactly
/// between two representable binary floats.
#[derive(Debug, Clone, Copy, PartialEq, Eq, Structural)]
pub enum RoundingKind {
    /// Round to the neighbor with an even mantissa (the default).
    NearestTieEven,
    /// Round to the neighbor further from zero.
    NearestTieAwayZero,
    /// Round toward positive infinity.
    TowardPositiveInfinity,
    /// Round toward negative infinity.
    TowardNegativeInfinity,
    /// Round toward zero.
    TowardZero,
}

/// Get the rounding kind if it is supported: only round-nearest with
/// ties to even is.
pub fn to_rounding(rounding: RoundingKind) -> (r: Option<RoundingKind>)
    ensures
        r == (if rounding == RoundingKind::NearestTieEven {
            Some(rounding)
        } else {
            None::<RoundingKind>
        }),
{
    match rounding == RoundingKind::NearestTieEven {
        false => None,
        true => Some(rounding),
    }
}

/// Get the NaN spelling if it is valid, that is starts with `N` or `n`.
pub fn to_nan_string(nan_string: Vec<u8>) -> (r: Option<Vec<u8>>)
    ensures
        r == (if starts_with_n_spec(nan_string@) {
            Some(nan_string)
        } else {
            None::<Vec<u8>>
        }),
{
    match starts_with_n(nan_string.as_slice()) {
        true => Some(nan_string),
        false => None,
    }
}

/// Get the short-infinity spelling if it is valid, that is starts with
/// `I` or `i`.
pub fn to_inf_string(inf_string: Vec<u8>) -> (r: Option<Vec<u8>>)
    ensures
        r == (if starts_with_i_spec(inf_string@) {
            Some(inf_string)
        } else {
            None::<Vec<u8>>
        }),
{
    match starts_with_i(inf_string.as_slice()) {
        true => Some(inf_string),
        false => None,
    }
}

/// Get the long-infinity spelling if it is valid: at least as long as
/// the short-infinity spelling, and starting with `I` or `i`.
pub fn to_infinity_string(infinity_string: Vec<u8>, inf_string: &Vec<u8>) -> (r: Option<Vec<u8>>)
    ensures
        r == (if infinity_string@.len() >= inf_string@.len() && starts_with_i_spec(
            infinity_string@,
        ) {
            Some(infinity_string)
        } else {
            None::<Vec<u8>>
        }),
{
    let longer = infinity_string.len() >= inf_string.len();
    let starts_with = starts_with_i(infinity_string.as_slice());
    match longer && starts_with {
        true => Some(infinity_string),
        false => None,
    }
}

// PARSE INTEGER

/// Builder for `ParseIntegerOptions`.
#[derive(Debug)]
pub struct ParseIntegerOptionsBuilder {
    pub radix: u8,
    pub format: NumberFormat,
}

impl ParseIntegerOptionsBuilder {
    /// A draft with the default radix and the standard format.
    pub fn new() -> (r: ParseIntegerOptionsBuilder)
        ensures
            r.radix == DEFAULT_RADIX,
            r.format.spec_digit_separator() == 0,
    {
        ParseIntegerOptionsBuilder { radix: DEFAULT_RADIX, format: NumberFormat::standard() }
    }

    /// Set the radix.
    pub fn radix(self, radix: u8) -> (r: Self)
        ensures
            r.radix == radix,
            r.format == self.format,
    {
        ParseIntegerOptionsBuilder { radix, format: self.format }
    }

    /// Set the number format.
    pub fn format(self, format: NumberFormat) -> (r: Self)
        ensures
            r.radix == self.radix,
            r.format == format,
    {
        ParseIntegerOptionsBuilder { radix: self.radix, format }
    }

    /// Validate every field and build the options, or return `None` on
    /// the first violation.
    pub fn build(self) -> (r: Option<ParseIntegerOptions>)
        ensures
            r is Some <==> valid_radix(self.radix) && !is_digit(
                self.format.spec_digit_separator(),
                self.radix as u32,
            ),
            r matches Some(o) ==> o.spec_radix() == self.radix && o.spec_format() == self.format,
    {
        let radix = to_radix(self.radix)?;
        let format = to_format_integer(self.format, radix)?;
        Some(ParseIntegerOptions { radix, format })
    }
}

/// Options to customize parsing integers.
#[derive(Clone, Debug)]
pub struct ParseIntegerOptions {
    /// Radix for the integer string.
    radix: u32,
    /// Number format.
    format: NumberFormat,
}

impl ParseIntegerOptions {
    /// The radix these options carry.
    pub closed spec fn spec_radix(&self) -> u32 {
        self.radix
    }

    /// The number format these options carry.
    pub closed spec fn spec_format(&self) -> NumberFormat {
        self.format
    }

    /// The cross-field invariant every built value satisfies.
    pub open spec fn is_valid(&self) -> bool {
        &&& 2 <= self.spec_radix() <= 36
        &&& !is_digit(self.spec_format().spec_digit_separator(), self.spec_radix())
    }

    /// Get access to the options builder.
    pub fn builder() -> (r: ParseIntegerOptionsBuilder)
        ensures
            r.radix == DEFAULT_RADIX,
            r.format.spec_digit_separator() == 0,
    {
        ParseIntegerOptionsBuilder::new()
    }

    /// Create new options to parse the default binary format.
    pub fn binary() -> (r: ParseIntegerOptions)
        ensures
            r.spec_radix() == 2,
            r.spec_format().spec_digit_separator() == 0,
            r.is_valid(),
    {
        ParseIntegerOptions::builder().radix(2).build().unwrap()
    }

    /// Create new options to parse the default decimal format.
    pub fn decimal() -> (r: ParseIntegerOptions)
        ensures
            r.spec_radix() == 10,
            r.spec_format().spec_digit_separator() == 0,
            r.is_valid(),
    {
        ParseIntegerOptions::builder().build().unwrap()
    }

    /// Create new options to parse the default hexadecimal format.
    pub fn hexadecimal() -> (r: ParseIntegerOptions)
        ensures
            r.spec_radix() == 16,
            r.spec_format().spec_digit_separator() == 0,
            r.is_valid(),
    {
        ParseIntegerOptions::builder().radix(16).build().unwrap()
    }

    /// Get the radix.
    pub fn radix(&self) -> (r: u32)
        ensures
            r == self.spec_radix(),
    {
        self.radix
    }

    /// Get the number format.
    pub fn format(&self) -> (r: NumberFormat)
        ensures
            r == self.spec_format(),
    {
        self.format
    }
}

impl Default for ParseIntegerOptions {
    fn default() -> (r: ParseIntegerOptions)
        ensures
            r.spec_radix() == 10,
            r.spec_format().spec_digit_separator() == 0,
            r.is_valid(),
    {
        ParseIntegerOptions::builder().build().unwrap()
    }
}

// PARSE FLOAT

/// Builder for `ParseFloatOptions`.
#[derive(Debug)]
pub struct ParseFloatOptionsBuilder {
    pub lossy: bool,
    pub exponent_char: u8,
    pub radix: u8,
    pub format: NumberFormat,
    pub rounding: RoundingKind,
    pub nan_string: Vec<u8>,
    pub inf_string: Vec<u8>,
    pub infinity_string: Vec<u8>,
}

/// Every field of a float-parsing draft passes its validation.
pub open spec fn parse_float_build_ok(b: ParseFloatOptionsBuilder) -> bool {
    &&& valid_radix(b.radix)
    &&& !is_digit(b.exponent_char, b.radix as u32)
    &&& !is_digit(b.format.spec_digit_separator(), b.radix as u32)
    &&& b.format.spec_digit_separator() != b.exponent_char
    &&& b.rounding == RoundingKind::NearestTieEven
    &&& starts_with_n_spec(b.nan_string@)
    &&& starts_with_i_spec(b.inf_string@)
    &&& b.infinity_string@.len() >= b.inf_string@.len()
    &&& starts_with_i_spec(b.infinity_string@)
}

impl ParseFloatOptionsBuilder {
    /// A draft with the default of every field.
    pub fn new() -> (r: ParseFloatOptionsBuilder)
        ensures
            r.lossy == false,
            r.exponent_char == CH_LOWER_E,
            r.radix == DEFAULT_RADIX,
            r.format.spec_digit_separator() == 0,
            r.rounding == RoundingKind::NearestTieEven,
            r.nan_string@ == default_nan(),
            r.inf_string@ == default_inf(),
            r.infinity_string@ == default_infinity(),
    {
        let nan_string: Vec<u8> = vec![CH_UPPER_N, 97, CH_UPPER_N];
        let inf_string: Vec<u8> = vec![CH_LOWER_I, CH_LOWER_N, 102];
        let infinity_string: Vec<u8> = vec![
            CH_LOWER_I,
            CH_LOWER_N,
            102,
            CH_LOWER_I,
            CH_LOWER_N,
            CH_LOWER_I,
            116,
            121,
        ];
        proof {
            assert(nan_string@ =~= default_nan());
            assert(inf_string@ =~= default_inf());
            assert(infinity_string@ =~= default_infinity());
        }
        ParseFloatOptionsBuilder {
            lossy: false,
            exponent_char: exponent_notation_char(DEFAULT_RADIX as u32),
            radix: DEFAULT_RADIX,
            format: NumberFormat::standard(),
            rounding: RoundingKind::NearestTieEven,
            nan_string,
            inf_string,
            infinity_string,
        }
    }

    /// Set whether to use the lossy, fast parser.
    pub fn lossy(self, lossy: bool) -> (r: Self)
        ensures
            r == (ParseFloatOptionsBuilder { lossy, ..self }),
    {
        ParseFloatOptionsBuilder { lossy, ..self }
    }

    /// Set the exponent character.
    pub fn exponent_char(self, exponent_char: u8) -> (r: Self)
        ensures
            r == (ParseFloatOptionsBuilder { exponent_char, ..self }),
    {
        ParseFloatOptionsBuilder { exponent_char, ..self }
    }

    /// Set the radix.
    pub fn radix(self, radix: u8) -> (r: Self)
        ensures
            r == (ParseFloatOptionsBuilder { radix, ..self }),
    {
        ParseFloatOptionsBuilder { radix, ..self }
    }

    /// Set the number format.
    pub fn format(self, format: NumberFormat) -> (r: Self)
        ensures
            r == (ParseFloatOptionsBuilder { format, ..self }),
    {
        ParseFloatOptionsBuilder { format, ..self }
    }

    /// Set the rounding kind.
    pub fn rounding(self, rounding: RoundingKind) -> (r: Self)
        ensures
            r == (ParseFloatOptionsBuilder { rounding, ..self }),
    {
        ParseFloatOptionsBuilder { rounding, ..self }
    }

    /// Set the NaN spelling.
    pub fn nan_string(self, nan_string: Vec<u8>) -> (r: Self)
        ensures
            r == (ParseFloatOptionsBuilder { nan_string, ..self }),
    {
        ParseFloatOptionsBuilder { nan_string, ..self }
    }

    /// Set the short-infinity spelling.
    pub fn inf_string(self, inf_string: Vec<u8>) -> (r: Self)
        ensures
            r == (ParseFloatOptionsBuilder { inf_string, ..self }),
    {
        ParseFloatOptionsBuilder { inf_string, ..self }
    }

    /// Set the long-infinity spelling.
    pub fn infinity_string(self, infinity_string: Vec<u8>) -> (r: Self)
        ensures
            r == (ParseFloatOptionsBuilder { infinity_string, ..self }),
    {
        ParseFloatOptionsBuilder { infinity_string, ..self }
    }

    /// Validate every field and build the options, or return `None` on
    /// the first violation.
    pub fn build(self) -> (r: Option<ParseFloatOptions>)
        ensures
            r is Some <==> parse_float_build_ok(self),
            r matches Some(o) ==> {
                &&& o.spec_lossy() == self.lossy
                &&& o.spec_exponent_char() == self.exponent_char
                &&& o.spec_radix() == self.radix as u32
                &&& o.spec_format() == self.format
                &&& o.spec_rounding() == self.rounding
                &&& o.spec_nan_string() == self.nan_string@
                &&& o.spec_inf_string() == self.inf_string@
                &&& o.spec_infinity_string() == self.infinity_string@
            },
    {
        let radix = to_radix(self.radix)?;
        let exponent_char = to_exponent_char(self.exponent_char, radix)?;
        let format = to_format_float(self.format, radix, exponent_char)?;
        let rounding = to_rounding(self.rounding)?;
        let nan_string = to_nan_string(self.nan_string)?;
        let inf_string = to_inf_string(self.inf_string)?;
        let infinity_string = to_infinity_string(self.infinity_string, &inf_string)?;
        Some(
            ParseFloatOptions {
                lossy: self.lossy,
                exponent_char,
                radix,
                format,
                rounding,
                nan_string,
                inf_string,
                infinity_string,
            },
        )
    }
}

/// Options to customize parsing floats.
#[derive(Clone, Debug)]
pub struct ParseFloatOptions {
    /// Use the lossy, fast parser.
    lossy: bool,
    /// Character to designate the exponent component.
    exponent_char: u8,
    /// Radix for the float string.
    radix: u32,
    /// Number format.
    format: NumberFormat,
    /// Rounding kind for the float.
    rounding: RoundingKind,
    /// String representation of Not-a-Number.
    nan_string: Vec<u8>,
    /// String representation of short infinity.
    inf_string: Vec<u8>,
    /// String representation of long infinity.
    infinity_string: Vec<u8>,
}

impl ParseFloatOptions {
    /// Whether the lossy parser was requested.
    pub closed spec fn spec_lossy(&self) -> bool {
        self.lossy
    }

    /// The exponent character these options carry.
    pub closed spec fn spec_exponent_char(&self) -> u8 {
        self.exponent_char
    }

    /// The radix these options carry.
    pub closed spec fn spec_radix(&self) -> u32 {
        self.radix
    }

    /// The number format these options carry.
    pub closed spec fn spec_format(&self) -> NumberFormat {
        self.format
    }

    /// The rounding kind these options carry.
    pub closed spec fn spec_rounding(&self) -> RoundingKind {
        self.rounding
    }

    /// The NaN spelling these options carry.
    pub closed spec fn spec_nan_string(&self) -> Seq<u8> {
        self.nan_string@
    }

    /// The short-infinity spelling these options carry.
    pub closed spec fn spec_inf_string(&self) -> Seq<u8> {
        self.inf_string@
    }

    /// The long-infinity spelling these options carry.
    pub closed spec fn spec_infinity_string(&self) -> Seq<u8> {
        self.infinity_string@
    }

    /// The cross-field invariant every built value satisfies.
    pub open spec fn is_valid(&self) -> bool {
        &&& 2 <= self.spec_radix() <= 36
        &&& !is_digit(self.spec_exponent_char(), self.spec_radix())
        &&& !is_digit(self.spec_format().spec_digit_separator(), self.spec_radix())
        &&& self.spec_format().spec_digit_separator() != self.spec_exponent_char()
        &&& self.spec_rounding() == RoundingKind::NearestTieEven
        &&& starts_with_n_spec(self.spec_nan_string())
        &&& starts_with_i_spec(self.spec_inf_string())
        &&& self.spec_infinity_string().len() >= self.spec_inf_string().len()
        &&& starts_with_i_spec(self.spec_infinity_string())
    }

    /// Get access to the options builder.
    pub fn builder() -> (r: ParseFloatOptionsBuilder)
        ensures
            r.lossy == false,
            r.exponent_char == CH_LOWER_E,
            r.radix == DEFAULT_RADIX,
            r.format.spec_digit_separator() == 0,
            r.rounding == RoundingKind::NearestTieEven,
            r.nan_string@ == default_nan(),
            r.inf_string@ == default_inf(),
            r.infinity_string@ == default_infinity(),
    {
        ParseFloatOptionsBuilder::new()
    }

    /// Create new options to parse the default binary format.
    pub fn binary() -> (r: ParseFloatOptions)
        ensures
            r.spec_radix() == 2,
            r.spec_exponent_char() == CH_LOWER_E,
            r.spec_lossy() == false,
            r.spec_nan_string() == default_nan(),
            r.spec_inf_string() == default_inf(),
            r.spec_infinity_string() == default_infinity(),
            r.is_valid(),
    {
        ParseFloatOptions::builder().radix(2).build().unwrap()
    }

    /// Create new options to parse the default decimal format.
    pub fn decimal() -> (r: ParseFloatOptions)
        ensures
            r.spec_radix() == 10,
            r.spec_exponent_char() == CH_LOWER_E,
            r.spec_lossy() == false,
            r.spec_nan_string() == default_nan(),
            r.spec_inf_string() == default_inf(),
            r.spec_infinity_string() == default_infinity(),
            r.is_valid(),
    {
        ParseFloatOptions::builder().build().unwrap()
    }

    /// Create new options to parse the default hexadecimal format.
    pub fn hexadecimal() -> (r: ParseFloatOptions)
        ensures
            r.spec_radix() == 16,
            r.spec_exponent_char() == 112,
            r.spec_lossy() == false,
            r.spec_nan_string() == default_nan(),
            r.spec_inf_string() == default_inf(),
            r.spec_infinity_string() == default_infinity(),
            r.is_valid(),
    {
        ParseFloatOptions::builder().radix(16).exponent_char(112).build().unwrap()
    }

    /// Get whether the lossy parser was requested.
    pub fn lossy(&self) -> (r: bool)
        ensures
            r == self.spec_lossy(),
    {
        self.lossy
    }

    /// Get the exponent character.
    pub fn exponent_char(&self) -> (r: u8)
        ensures
            r == self.spec_exponent_char(),
    {
        self.exponent_char
    }

    /// Get the string used to represent NaN.
    pub fn nan_string(&self) -> (r: &Vec<u8>)
        ensures
            r@ == self.spec_nan_string(),
    {
        &self.nan_string
    }

    /// Get the string used to represent short infinity.
    pub fn inf_string(&self) -> (r: &Vec<u8>)
        ensures
            r@ == self.spec_inf_string(),
    {
        &self.inf_string
    }

    /// Get the string used to represent long infinity.
    pub fn infinity_string(&self) -> (r: &Vec<u8>)
        ensures
            r@ == self.spec_infinity_string(),
    {
        &self.infinity_string
    }

    /// Get the radix.
    pub fn radix(&self) -> (r: u32)
        ensures
            r == self.spec_radix(),
    {
        self.radix
    }

    /// Get the number format.
    pub fn format(&self) -> (r: NumberFormat)
        ensures
            r == self.spec_format(),
    {
        self.format
    }

    /// Get the rounding kind.
    pub fn rounding(&self) -> (r: RoundingKind)
        ensures
            r == self.spec_rounding(),
    {
        self.rounding
    }
}

impl Default for ParseFloatOptions {
    fn default() -> (r: ParseFloatOptions)
        ensures
            r.spec_radix() == 10,
            r.spec_exponent_char() == CH_LOWER_E,
            r.spec_lossy() == false,
            r.spec_nan_string() == default_nan(),
            r.spec_inf_string() == default_inf(),
            r.spec_infinity_string() == default_infinity(),
            r.is_valid(),
    {
        ParseFloatOptions::builder().build().unwrap()
    }
}

// WRITE INTEGER

/// Builder for `WriteIntegerOptions`.
#[derive(Debug)]
pub struct WriteIntegerOptionsBuilder {
    pub radix: u8,
}

impl WriteIntegerOptionsBuilder {
    /// A draft with the default radix.
    pub fn new() -> (r: WriteIntegerOptionsBuilder)
        ensures
            r.radix == DEFAULT_RADIX,
    {
        WriteIntegerOptionsBuilder { radix: DEFAULT_RADIX }
    }

    /// Set the radix.
    pub fn radix(self, radix: u8) -> (r: Self)
        ensures
            r.radix == radix,
    {
        WriteIntegerOptionsBuilder { radix }
    }

    /// Validate the radix and build the options, or return `None`.
    pub fn build(self) -> (r: Option<WriteIntegerOptions>)
        ensures
            r is Some <==> valid_radix(self.radix),
            r matches Some(o) ==> o.spec_radix() == self.radix,
    {
        let radix = to_radix(self.radix)?;
        Some(WriteIntegerOptions { radix })
    }
}

/// Immutable options to customize writing integers.
#[derive(Clone, Debug)]
pub struct WriteIntegerOptions {
    /// Radix for the integer string.
    radix: u32,
}

impl WriteIntegerOptions {
    /// The radix these options carry.
    pub closed spec fn spec_radix(&self) -> u32 {
        self.radix
    }

    /// The invariant every built value satisfies.
    pub open spec fn is_valid(&self) -> bool {
        2 <= self.spec_radix() <= 36
    }

    /// Get access to the options builder.
    pub fn builder() -> (r: WriteIntegerOptionsBuilder)
        ensures
            r.radix == DEFAULT_RADIX,
    {
        WriteIntegerOptionsBuilder::new()
    }

    /// Create new options to write the default binary format.
    pub fn binary() -> (r: WriteIntegerOptions)
        ensures
            r.spec_radix() == 2,
            r.is_valid(),
    {
        WriteIntegerOptions::builder().radix(2).build().unwrap()
    }

    /// Create new options to write the default decimal format.
    pub fn decimal() -> (r: WriteIntegerOptions)
        ensures
            r.spec_radix() == 10,
            r.is_valid(),
    {
        WriteIntegerOptions::builder().build().unwrap()
    }

    /// Create new options to write the default hexadecimal format.
    pub fn hexadecimal() -> (r: WriteIntegerOptions)
        ensures
            r.spec_radix() == 16,
            r.is_valid(),
    {
        WriteIntegerOptions::builder().radix(16).build().unwrap()
    }

    /// Get the radix.
    pub fn radix(&self) -> (r: u32)
        ensures
            r == self.spec_radix(),
    {
        self.radix
    }
}

impl Default for WriteIntegerOptions {
    fn default() -> (r: WriteIntegerOptions)
        ensures
            r.spec_radix() == 10,
            r.is_valid(),
    {
        WriteIntegerOptions::builder().build().unwrap()
    }
}

// WRITE FLOAT

/// Builder for `WriteFloatOptions`.
#[derive(Debug)]
pub struct WriteFloatOptionsBuilder {
    pub exponent_char: u8,
    pub radix: u8,
    pub trim_floats: bool,
    pub nan_string: Vec<u8>,
    pub inf_string: Vec<u8>,
}

/// Every field of a float-writing draft passes its validation.
pub open spec fn write_float_build_ok(b: WriteFloatOptionsBuilder) -> bool {
    &&& valid_radix(b.radix)
    &&& !is_digit(b.exponent_char, b.radix as u32)
    &&& starts_with_n_spec(b.nan_string@)
    &&& starts_with_i_spec(b.inf_string@)
}

impl WriteFloatOptionsBuilder {
    /// A draft with the default of every field.
    pub fn new() -> (r: WriteFloatOptionsBuilder)
        ensures
            r.exponent_char == CH_LOWER_E,
            r.radix == DEFAULT_RADIX,
            r.trim_floats == false,
            r.nan_string@ == default_nan(),
            r.inf_string@ == default_inf(),
    {
        let nan_string: Vec<u8> = vec![CH_UPPER_N, 97, CH_UPPER_N];
        let inf_string: Vec<u8> = vec![CH_LOWER_I, CH_LOWER_N, 102];
        proof {
            assert(nan_string@ =~= default_nan());
            assert(inf_string@ =~= default_inf());
        }
        WriteFloatOptionsBuilder {
            exponent_char: exponent_notation_char(DEFAULT_RADIX as u32),
            radix: DEFAULT_RADIX,
            trim_floats: false,
            nan_string,
            inf_string,
        }
    }

    /// Set the exponent character.
    pub fn exponent_char(self, exponent_char: u8) -> (r: Self)
        ensures
            r == (WriteFloatOptionsBuilder { exponent_char, ..self }),
    {
        WriteFloatOptionsBuilder { exponent_char, ..self }
    }

    /// Set the radix.
    pub fn radix(self, radix: u8) -> (r: Self)
        ensures
            r == (WriteFloatOptionsBuilder { radix, ..self }),
    {
        WriteFloatOptionsBuilder { radix, ..self }
    }

    /// Set whether to trim a trailing `.0` from integral floats.
    pub fn trim_floats(self, trim_floats: bool) -> (r: Self)
        ensures
            r == (WriteFloatOptionsBuilder { trim_floats, ..self }),
    {
        WriteFloatOptionsBuilder { trim_floats, ..self }
    }

    /// Set the NaN spelling.
    pub fn nan_string(self, nan_string: Vec<u8>) -> (r: Self)
        ensures
            r == (WriteFloatOptionsBuilder { nan_string, ..self }),
    {
        WriteFloatOptionsBuilder { nan_string, ..self }
    }

    /// Set the short-infinity spelling.
    pub fn inf_string(self, inf_string: Vec<u8>) -> (r: Self)
        ensures
            r == (WriteFloatOptionsBuilder { inf_string, ..self }),
    {
        WriteFloatOptionsBuilder { inf_string, ..self }
    }

    /// Validate every field and build the options, or return `None` on
    /// the first violation.
    pub fn build(self) -> (r: Option<WriteFloatOptions>)
        ensures
            r is Some <==> write_float_build_ok(self),
            r matches Some(o) ==> {
                &&& o.spec_exponent_char() == self.exponent_char
                &&& o.spec_radix() == self.radix as u32
                &&& o.spec_trim_floats() == self.trim_floats
                &&& o.spec_nan_string() == self.nan_string@
                &&& o.spec_inf_string() == self.inf_string@
            },
    {
        let radix = to_radix(self.radix)?;
        let exponent_char = to_exponent_char(self.exponent_char, radix)?;
        let nan_string = to_nan_string(self.nan_string)?;
        let inf_string = to_inf_string(self.inf_string)?;
        Some(
            WriteFloatOptions {
                exponent_char,
                radix,
                trim_floats: self.trim_floats,
                nan_string,
                inf_string,
            },
        )
    }
}

/// Options to customize writing floats.
#[derive(Clone, Debug)]
pub struct WriteFloatOptions {
    /// Character to designate the exponent component.
    exponent_char: u8,
    /// Radix for the float string.
    radix: u32,
    /// Trim the trailing `.0` from integral float strings.
    trim_floats: bool,
    /// String representation of Not-a-Number.
    nan_string: Vec<u8>,
    /// String representation of short infinity.
    inf_string: Vec<u8>,
}

impl WriteFloatOptions {
    /// The exponent character these options carry.
    pub closed spec fn spec_exponent_char(&self) -> u8 {
        self.exponent_char
    }

    /// The radix these options carry.
    pub closed spec fn spec_radix(&self) -> u32 {
        self.radix
    }

    /// Whether a trailing `.0` is trimmed.
    pub closed spec fn spec_trim_floats(&self) -> bool {
        self.trim_floats
    }

    /// The NaN spelling these options carry.
    pub closed spec fn spec_nan_string(&self) -> Seq<u8> {
        self.nan_string@
    }

    /// The short-infinity spelling these options carry.
    pub closed spec fn spec_inf_string(&self) -> Seq<u8> {
        self.inf_string@
    }

    /// The cross-field invariant every built value satisfies.
    pub open spec fn is_valid(&self) -> bool {
        &&& 2 <= self.spec_radix() <= 36
        &&& !is_digit(self.spec_exponent_char(), self.spec_radix())
        &&& starts_with_n_spec(self.spec_nan_string())
        &&& starts_with_i_spec(self.spec_inf_string())
    }

    /// Get access to the options builder.
    pub fn builder() -> (r: WriteFloatOptionsBuilder)
        ensures
            r.exponent_char == CH_LOWER_E,
            r.radix == DEFAULT_RADIX,
            r.trim_floats == false,
            r.nan_string@ == default_nan(),
            r.inf_string@ == default_inf(),
    {
        WriteFloatOptionsBuilder::new()
    }

    /// Create new options to write the default binary format.
    pub fn binary() -> (r: WriteFloatOptions)
        ensures
            r.spec_radix() == 2,
            r.spec_exponent_char() == CH_LOWER_E,
            r.spec_trim_floats() == false,
            r.spec_nan_string() == default_nan(),
            r.spec_inf_string() == default_inf(),
            r.is_valid(),
    {
        WriteFloatOptions::builder().radix(2).build().unwrap()
    }

    /// Create new options to write the default decimal format.
    pub fn decimal() -> (r: WriteFloatOptions)
        ensures
            r.spec_radix() == 10,
            r.spec_exponent_char() == CH_LOWER_E,
            r.spec_trim_floats() == false,
            r.spec_nan_string() == default_nan(),
            r.spec_inf_string() == default_inf(),
            r.is_valid(),
    {
        WriteFloatOptions::builder().build().unwrap()
    }

    /// Create new options to write the default hexadecimal format.
    pub fn hexadecimal() -> (r: WriteFloatOptions)
        ensures
            r.spec_radix() == 16,
            r.spec_exponent_char() == 112,
            r.spec_trim_floats() == false,
            r.spec_nan_string() == default_nan(),
            r.spec_inf_string() == default_inf(),
            r.is_valid(),
    {
        WriteFloatOptions::builder().radix(16).exponent_char(112).build().unwrap()
    }

    /// Get the exponent character.
    pub fn exponent_char(&self) -> (r: u8)
        ensures
            r == self.spec_exponent_char(),
    {
        self.exponent_char
    }

    /// Get the radix.
    pub fn radix(&self) -> (r: u32)
        ensures
            r == self.spec_radix(),
    {
        self.radix
    }

    /// Get whether a trailing `.0` is trimmed from integral floats.
    pub fn trim_floats(&self) -> (r: bool)
        ensures
            r == self.spec_trim_floats(),
    {
        self.trim_floats
    }

    /// Get the string used to represent NaN.
    pub fn nan_string(&self) -> (r: &Vec<u8>)
        ensures
            r@ == self.spec_nan_string(),
    {
        &self.nan_string
    }

    /// Get the string used to represent short infinity.
    pub fn inf_string(&self) -> (r: &Vec<u8>)
        ensures
            r@ == self.spec_inf_string(),
    {
        &self.inf_string
    }
}

/// Configuration rejection: an option draft with an out-of-range
/// radix, with an exponent character that is a digit of its radix, or
/// with a long-infinity spelling shorter than its short-infinity
/// spelling, never passes validation; together with `build`'s
/// contract, building such a draft always yields no result.
pub proof fn lemma_configuration_rejection(b: ParseFloatOptionsBuilder, w: WriteFloatOptionsBuilder)
    ensures
        !valid_radix(b.radix) ==> !parse_float_build_ok(b),
        is_digit(b.exponent_char, b.radix as u32) ==> !parse_float_build_ok(b),
        b.infinity_string@.len() < b.inf_string@.len() ==> !parse_float_build_ok(b),
        b.rounding != RoundingKind::NearestTieEven ==> !parse_float_build_ok(b),
        !valid_radix(w.radix) ==> !write_float_build_ok(w),
        is_digit(w.exponent_char, w.radix as u32) ==> !write_float_build_ok(w),
{
}

impl Default for WriteFloatOptions {
    fn default() -> (r: WriteFloatOptions)
        ensures
            r.spec_radix() == 10,
            r.spec_exponent_char() == CH_LOWER_E,
            r.spec_trim_floats() == false,
            r.spec_nan_string() == default_nan(),
            r.spec_inf_string() == default_inf(),
            r.is_valid(),
    {
        WriteFloatOptions::builder().build().unwrap()
    }
}

} // verus!
