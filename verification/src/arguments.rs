//! Command-line values that the drawings are configured with, and the
//! parsers for the textual ones.
use vstd::prelude::*;

use crate::color::Rgb8;
use crate::text::{
    decimal_u32,
    parse_char,
    parse_u32,
    single_char,
    split_first,
    split_once,
    trim,
    trimmed,
    char_error_text,
    int_error_text,
    CharErrorKind,
    IntErrorKind,
};

verus! {

#[verifier::external_type_specification]
#[verifier::external_body]
pub struct ExPathBuf(std::path::PathBuf);

/// Settings shared by every drawing.
#[derive(Clone, Copy, Debug)]
pub struct GenericArguments {
    /// Seed for the random choices of a drawing.
    pub seed: u32,
    /// Color behind the drawing.
    pub background: Rgb8,
    /// Color of the drawn lines.
    pub foreground: Rgb8,
}

/// Where and how large the gallery of all pieces is rendered.
#[derive(Debug)]
pub struct GalleryArguments {
    /// Directory that receives one image per piece.
    pub path: std::path::PathBuf,
    /// Width and height of each image in pixels.
    pub resolution: (u32, u32),
}

/// Why an argument was refused.
#[derive(Clone, Copy, Debug, PartialEq, Eq, Structural)]
pub enum ArgError {
    /// The separator between the two halves is missing.
    MissingSeparator(char),
    /// A number could not be read.
    InvalidInteger(IntErrorKind),
    /// A single character could not be read.
    InvalidChar(CharErrorKind),
}

/// The message that describes an argument error.
pub open spec fn arg_error_text(e: ArgError) -> Seq<char> {
    match e {
        ArgError::MissingSeparator(c) => "no `"@ + seq![c] + "` found"@,
        ArgError::InvalidInteger(kind) => int_error_text(kind),
        ArgError::InvalidChar(kind) => char_error_text(kind),
    }
}

/// Calls `char::to_string`, which gives the text made of `c` alone.
#[verifier::external_body]
fn char_text(c: char) -> (r: String)
    ensures
        r@ == seq![c],
{
    c.to_string()
}

impl ArgError {
    /// The message that describes this error.
    pub fn message(&self) -> (r: String)
        ensures
            r@ == arg_error_text(*self),
    {
        match self {
            ArgError::MissingSeparator(c) => {
                let mut text = "no `".to_owned();
                let separator = char_text(*c);
                text.append(separator.as_str());
                text.append("` found");
                text
            },
            ArgError::InvalidInteger(kind) => kind.message(),
            ArgError::InvalidChar(kind) => kind.message(),
        }
    }
}

/// What `parse_resolution` gives for `s`.
pub open spec fn resolution_of(s: Seq<char>) -> Result<(u32, u32), ArgError> {
    match split_first(s, 'x') {
        None => Err(ArgError::MissingSeparator('x')),
        Some((w, h)) => match decimal_u32(w) {
            Err(e) => Err(ArgError::InvalidInteger(e)),
            Ok(width) => match decimal_u32(h) {
                Err(e) => Err(ArgError::InvalidInteger(e)),
                Ok(height) => Ok((width, height)),
            },
        },
    }
}

/// Reads a resolution written `WIDTHxHEIGHT`, split at the first `x`.
pub fn parse_resolution(s: &str) -> (r: Result<(u32, u32), ArgError>)
    ensures
        r == resolution_of(s@),
{
    match split_once(s, 'x') {
        None => Err(ArgError::MissingSeparator('x')),
        Some((w, h)) => match parse_u32(w) {
            Err(e) => Err(ArgError::InvalidInteger(e)),
            Ok(width) => match parse_u32(h) {
                Err(e) => Err(ArgError::InvalidInteger(e)),
                Ok(height) => Ok((width, height)),
            },
        },
    }
}

/// What `parse_key_val` gives for `s`: the symbol before the first `=` and
/// the production after it.
pub open spec fn key_val_of(s: Seq<char>) -> Result<(char, Seq<char>), ArgError> {
    match split_first(s, '=') {
        None => Err(ArgError::MissingSeparator('=')),
        Some((k, v)) => match single_char(k) {
            Err(e) => Err(ArgError::InvalidChar(e)),
            Ok(c) => Ok((c, v)),
        },
    }
}

/// Reads a rewriting rule written `S=PRODUCTION`, split at the first `=`.
pub fn parse_key_val(s: &str) -> (r: Result<(char, String), ArgError>)
    ensures
        match r {
            Ok((c, v)) => key_val_of(s@) == Ok::<(char, Seq<char>), ArgError>((c, v@)),
            Err(e) => key_val_of(s@) == Err::<(char, Seq<char>), ArgError>(e),
        },
{
    match split_once(s, '=') {
        None => Err(ArgError::MissingSeparator('=')),
        Some((k, v)) => match parse_char(k) {
            Err(e) => Err(ArgError::InvalidChar(e)),
            Ok(c) => Ok((c, v.to_owned())),
        },
    }
}

/// The decimal digit characters, by value.
pub open spec fn digit_chars() -> Seq<char> {
    seq!['0', '1', '2', '3', '4', '5', '6', '7', '8', '9']
}

/// The decimal numeral of `n`, without sign or leading zeros.
pub open spec fn decimal(n: nat) -> Seq<char>
    decreases n,
{
    if n < 10 {
        seq![digit_chars()[n as int]]
    } else {
        decimal(n / 10).push(digit_chars()[(n % 10) as int])
    }
}

proof fn lemma_digit_chars(d: int)
    requires
        0 <= d < 10,
    ensures
        crate::text::is_digit(digit_chars()[d]),
        crate::text::digit_value(digit_chars()[d]) == d,
        digit_chars()[d] != 'x',
        digit_chars()[d] != '+',
        digit_chars()[d] != '-',
{
}

proof fn lemma_decimal_digits(n: nat)
    ensures
        decimal(n).len() >= 1,
        forall|i: int| 0 <= i < decimal(n).len() ==> crate::text::is_digit(#[trigger] decimal(n)[i])
            && decimal(n)[i] != 'x',
    decreases n,
{
    if n < 10 {
        lemma_digit_chars(n as int);
    } else {
        lemma_decimal_digits(n / 10);
        lemma_digit_chars((n % 10) as int);
        assert forall|i: int| 0 <= i < decimal(n).len() implies crate::text::is_digit(
            #[trigger] decimal(n)[i],
        ) && decimal(n)[i] != 'x' by {
            if i < decimal(n / 10).len() {
                assert(decimal(n)[i] == decimal(n / 10)[i]);
            }
        }
    }
}

proof fn lemma_scan_decimal(n: nat)
    requires
        n <= u32::MAX,
    ensures
        crate::text::scan_digits(decimal(n)) == Ok::<u32, IntErrorKind>(n as u32),
    decreases n,
{
    lemma_digit_chars((n % 10) as int);
    let d = decimal(n);
    if n < 10 {
        assert(d.drop_last() =~= Seq::<char>::empty());
        assert(crate::text::scan_digits(d.drop_last()) == Ok::<u32, IntErrorKind>(0));
        assert(d.last() == digit_chars()[n as int]);
    } else {
        lemma_scan_decimal(n / 10);
        assert(d.drop_last() =~= decimal(n / 10));
        assert(d.last() == digit_chars()[(n % 10) as int]);
        assert((n / 10) * 10 + n % 10 == n);
    }
}

/// Reading a decimal numeral gives back its value.
pub proof fn lemma_decimal_u32_roundtrip(n: u32)
    ensures
        decimal_u32(decimal(n as nat)) == Ok::<u32, IntErrorKind>(n),
{
    lemma_decimal_digits(n as nat);
    lemma_scan_decimal(n as nat);
    assert(decimal(n as nat)[0] != '+');
}

/// A resolution without an `x`, or a rule without an `=`, is refused for
/// its missing separator.
pub proof fn lemma_missing_separator(s: Seq<char>)
    ensures
        !s.contains('x') ==> resolution_of(s) == Err::<(u32, u32), ArgError>(
            ArgError::MissingSeparator('x'),
        ),
        !s.contains('=') ==> key_val_of(s) == Err::<(char, Seq<char>), ArgError>(
            ArgError::MissingSeparator('='),
        ),
{
    crate::text::lemma_split_first(s, 'x');
    crate::text::lemma_split_first(s, '=');
    if !s.contains('x') {
        match split_first(s, 'x') {
            Some((l, r)) => {
                assert((l + seq!['x'] + r)[l.len() as int] == 'x');
            },
            None => {},
        }
    }
    if !s.contains('=') {
        match split_first(s, '=') {
            Some((l, r)) => {
                assert((l + seq!['='] + r)[l.len() as int] == '=');
            },
            None => {},
        }
    }
}

/// A numeral with a leading `+` reads back as its value too.
pub proof fn lemma_signed_decimal_roundtrip(n: u32)
    ensures
        decimal_u32(seq!['+'] + decimal(n as nat)) == Ok::<u32, IntErrorKind>(n),
{
    lemma_decimal_digits(n as nat);
    lemma_scan_decimal(n as nat);
    let s = seq!['+'] + decimal(n as nat);
    assert(s.drop_first() =~= decimal(n as nat));
}

proof fn lemma_scan_decimal_overflow(n: nat)
    requires
        n > u32::MAX,
    ensures
        crate::text::scan_digits(decimal(n)) == Err::<u32, IntErrorKind>(IntErrorKind::PosOverflow),
    decreases n,
{
    let d = decimal(n);
    lemma_digit_chars((n % 10) as int);
    assert(d.drop_last() =~= decimal(n / 10));
    assert(d.last() == digit_chars()[(n % 10) as int]);
    if n / 10 > u32::MAX {
        lemma_scan_decimal_overflow(n / 10);
    } else {
        lemma_scan_decimal(n / 10);
        assert((n / 10) * 10 + n % 10 == n);
    }
}

/// A numeral whose value does not fit in a `u32` is refused as too large.
pub proof fn lemma_decimal_overflow(n: nat)
    requires
        n > u32::MAX,
    ensures
        decimal_u32(decimal(n)) == Err::<u32, IntErrorKind>(IntErrorKind::PosOverflow),
{
    lemma_decimal_digits(n);
    lemma_scan_decimal_overflow(n);
    assert(decimal(n)[0] != '+');
    assert(decimal(n)[0] != '-');
}

/// A resolution written as two decimal numerals joined by `x` reads back as
/// the two numbers.
pub proof fn lemma_resolution_roundtrip(width: u32, height: u32)
    ensures
        resolution_of(decimal(width as nat) + seq!['x'] + decimal(height as nat)) == Ok::<
            (u32, u32),
            ArgError,
        >((width, height)),
{
    let w = decimal(width as nat);
    let h = decimal(height as nat);
    let s = w + seq!['x'] + h;
    lemma_decimal_digits(width as nat);
    assert forall|q: int| 0 <= q < w.len() implies s[q] != 'x' by {
        assert(s[q] == w[q]);
    }
    crate::text::lemma_first_index_at(s, 'x', w.len() as int);
    assert(s.take(w.len() as int) =~= w);
    assert(s.skip(w.len() as int + 1) =~= h);
    lemma_decimal_u32_roundtrip(width);
    lemma_decimal_u32_roundtrip(height);
}

/// A rule written as its symbol, `=` and its production reads back as the
/// symbol and the production, unless the symbol is `=` itself.
pub proof fn lemma_key_val_roundtrip(symbol: char, production: Seq<char>)
    requires
        symbol != '=',
    ensures
        key_val_of(seq![symbol, '='] + production) == Ok::<(char, Seq<char>), ArgError>(
            (symbol, production),
        ),
{
    let s = seq![symbol, '='] + production;
    crate::text::lemma_first_index_at(s, '=', 1);
    assert(s.take(1) =~= seq![symbol]);
    assert(s.skip(2) =~= production);
}

/// The number part of an angle argument and the unit it is written in.
pub enum AngleText<'a> {
    /// Degrees, written with a trailing `º` or `deg`.
    Degrees(&'a str),
    /// Radians, written as a bare number.
    Radians(&'a str),
}

/// The unit of an angle argument and the text of its number: a trailing `º`
/// is cut off; else a trailing `deg` is cut off and white space trimmed.
pub open spec fn angle_parts(s: Seq<char>) -> (bool, Seq<char>) {
    if s.len() >= 1 && s.last() == 'º' {
        (true, s.drop_last())
    } else if s.len() >= 3 && s.skip(s.len() - 3) == seq!['d', 'e', 'g'] {
        (true, trimmed(s.take(s.len() - 3)))
    } else {
        (false, s)
    }
}

/// A number followed by `º` is read as degrees, with that number's text.
pub proof fn lemma_degree_sign(number: Seq<char>)
    ensures
        angle_parts(number.push('º')) == (true, number),
{
    assert(number.push('º').drop_last() =~= number);
}

/// A number followed by `deg` is read as degrees, with that number's text
/// trimmed of white space.
pub proof fn lemma_deg_suffix(number: Seq<char>)
    ensures
        angle_parts(number + seq!['d', 'e', 'g']) == (true, trimmed(number)),
{
    let s = number + seq!['d', 'e', 'g'];
    assert(s.last() == 'g');
    assert(s.skip(s.len() - 3) =~= seq!['d', 'e', 'g']);
    assert(s.take(s.len() - 3) =~= number);
}

/// Text that ends neither in `º` nor in `deg` is a radian number, handed on
/// whole.
pub proof fn lemma_bare_angle(s: Seq<char>)
    requires
        s.len() == 0 || s.last() != 'º',
        s.len() < 3 || s[s.len() - 3] != 'd' || s[s.len() - 2] != 'e' || s[s.len() - 1] != 'g',
    ensures
        angle_parts(s) == (false, s),
{
    if s.len() >= 3 && s.skip(s.len() - 3) == seq!['d', 'e', 'g'] {
        assert(s.skip(s.len() - 3)[0] == s[s.len() - 3]);
        assert(s.skip(s.len() - 3)[1] == s[s.len() - 2]);
        assert(s.skip(s.len() - 3)[2] == s[s.len() - 1]);
    }
}

/// Splits an angle argument into its unit and the text of its number.
pub fn split_angle(s: &str) -> (r: AngleText)
    ensures
        match r {
            AngleText::Degrees(t) => angle_parts(s@) == (true, t@),
            AngleText::Radians(t) => angle_parts(s@) == (false, t@),
        },
{
    let n = s.unicode_len();
    if n >= 1 && s.get_char(n - 1) == 'º' {
        let t = s.substring_char(0, n - 1);
        proof {
            assert(t@ =~= s@.drop_last());
        }
        return AngleText::Degrees(t);
    }
    if n >= 3 && s.get_char(n - 3) == 'd' && s.get_char(n - 2) == 'e' && s.get_char(n - 1) == 'g' {
        let t = s.substring_char(0, n - 3);
        proof {
            assert(s@.skip(n - 3) =~= seq!['d', 'e', 'g']);
            assert(t@ =~= s@.take(n - 3));
        }
        return AngleText::Degrees(trim(t));
    }
    proof {
        if n >= 3 && s@.skip(n - 3) == seq!['d', 'e', 'g'] {
            assert(s@.skip(n - 3)[0] == s@[n - 3]);
            assert(s@.skip(n - 3)[1] == s@[n - 2]);
            assert(s@.skip(n - 3)[2] == s@[n - 1]);
        }
    }
    AngleText::Radians(s)
}

} // verus!
