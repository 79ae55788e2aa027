//! Colors given on the command line: SVG/CSS3 names or hex codes.
use vstd::prelude::*;

verus! {

/// An sRGB color with 8-bit components.
#[derive(Clone, Copy, Debug, PartialEq, Eq, Structural)]
pub struct Rgb8 {
    pub red: u8,
    pub green: u8,
    pub blue: u8,
}

/// Why a color argument was refused.
#[derive(Clone, Copy, Debug, PartialEq, Eq, Structural)]
pub enum ColorError {
    /// Not a color name, and the code is not three or six bytes long.
    HexFormat,
    /// Not a color name, and the code holds a character that is not a
    /// hexadecimal digit where one is needed.
    InvalidDigit,
}

/// The message that describes a color error, as `palette` words it.
pub open spec fn color_error_text(e: ColorError) -> Seq<char> {
    match e {
        ColorError::HexFormat => "invalid hex code format, please use format '#fff', 'fff', '#ffffff', 'ffffff', etc."@,
        ColorError::InvalidDigit => crate::text::int_error_text(crate::text::IntErrorKind::InvalidDigit),
    }
}

impl ColorError {
    /// The message that describes this error.
    pub fn message(&self) -> (r: String)
        ensures
            r@ == color_error_text(*self),
    {
        match self {
            ColorError::HexFormat => "invalid hex code format, please use format '#fff', 'fff', '#ffffff', 'ffffff', etc.".to_owned(),
            ColorError::InvalidDigit => crate::text::IntErrorKind::InvalidDigit.message(),
        }
    }
}

#[verifier::external_type_specification]
#[verifier::external_body]
pub struct ExFromHexError(palette::rgb::FromHexError);

/// The components of the SVG/CSS3 color called `name`, if there is one.
pub uninterp spec fn named_color(name: Seq<char>) -> Option<(u8, u8, u8)>;

/// The value of a hexadecimal digit (either case).
pub open spec fn hex_digit(c: char) -> Option<u8> {
    if '0' <= c && c <= '9' {
        Some((c as int - '0' as int) as u8)
    } else if 'a' <= c && c <= 'f' {
        Some((c as int - 'a' as int + 10) as u8)
    } else if 'A' <= c && c <= 'F' {
        Some((c as int - 'A' as int + 10) as u8)
    } else {
        None
    }
}

/// Two characters read as a hexadecimal byte, as `u8::from_str_radix(_, 16)`
/// reads them: a leading `+` is a sign.
pub open spec fn hex_byte(a: char, b: char) -> Option<u8> {
    if a == '+' {
        hex_digit(b)
    } else {
        match (hex_digit(a), hex_digit(b)) {
            (Some(x), Some(y)) => Some((x * 16 + y) as u8),
            _ => None,
        }
    }
}

/// A hex color code `#rgb`, `rgb`, `#rrggbb` or `rrggbb`, each short digit
/// standing for the digit repeated.
pub open spec fn hex_color(s: Seq<char>) -> Option<(u8, u8, u8)> {
    let code = hex_code(s);
    if code.len() == 3 {
        match (hex_digit(code[0]), hex_digit(code[1]), hex_digit(code[2])) {
            (Some(r), Some(g), Some(b)) => Some(((r * 17) as u8, (g * 17) as u8, (b * 17) as u8)),
            _ => None,
        }
    } else if code.len() == 6 {
        match (hex_byte(code[0], code[1]), hex_byte(code[2], code[3]), hex_byte(code[4], code[5])) {
            (Some(r), Some(g), Some(b)) => Some((r, g, b)),
            _ => None,
        }
    } else {
        None
    }
}

/// The number of bytes that UTF-8 takes for `c`, as `char::len_utf8` gives it.
pub open spec fn utf8_width(c: char) -> nat {
    if '\u{7f}' >= c {
        1
    } else if '\u{7ff}' >= c {
        2
    } else if '\u{ffff}' >= c {
        3
    } else {
        4
    }
}

/// The number of bytes of the UTF-8 encoding of `s`.
pub open spec fn utf8_len(s: Seq<char>) -> nat
    decreases s.len(),
{
    if s.len() == 0 {
        0
    } else {
        utf8_len(s.drop_last()) + utf8_width(s.last())
    }
}

/// A hex color argument without its optional leading `#`.
pub open spec fn hex_code(s: Seq<char>) -> Seq<char> {
    if s.len() > 0 && s[0] == '#' {
        s.drop_first()
    } else {
        s
    }
}

/// The color an argument names: a known color name first, else a hex code
/// whose UTF-8 encoding, without the leading `#`, is three or six bytes long.
pub open spec fn color_for(named: Option<(u8, u8, u8)>, s: Seq<char>) -> Result<Rgb8, ColorError> {
    match named {
        Some((r, g, b)) => Ok(Rgb8 { red: r, green: g, blue: b }),
        None => if utf8_len(hex_code(s)) != 3 && utf8_len(hex_code(s)) != 6 {
            Err(ColorError::HexFormat)
        } else {
            match hex_color(s) {
                Some((r, g, b)) => Ok(Rgb8 { red: r, green: g, blue: b }),
                None => Err(ColorError::InvalidDigit),
            }
        },
    }
}

/// The UTF-8 length of `s`, or 7 if it is longer than 6 bytes.
fn utf8_len_up_to_seven(s: &str) -> (r: usize)
    ensures
        r == if utf8_len(s@) > 6 {
            7
        } else {
            utf8_len(s@)
        },
{
    let n = s.unicode_len();
    let mut total: usize = 0;
    let mut i: usize = 0;
    while i < n
        invariant
            n == s@.len(),
            i <= n,
            total == utf8_len(s@.take(i as int)),
            total <= 6,
        decreases n - i,
    {
        let c = s.get_char(i);
        let width: usize = if '\u{7f}' >= c {
            1
        } else if '\u{7ff}' >= c {
            2
        } else if '\u{ffff}' >= c {
            3
        } else {
            4
        };
        proof {
            assert(s@.take(i + 1).drop_last() =~= s@.take(i as int));
            assert(s@.take(i + 1).last() == c);
            lemma_utf8_len_prefix(s@, i + 1);
        }
        total = total + width;
        i = i + 1;
        if total > 6 {
            return 7;
        }
    }
    proof {
        assert(s@.take(n as int) =~= s@);
    }
    total
}

/// The UTF-8 length of a text is at least that of any of its prefixes.
proof fn lemma_utf8_len_prefix(s: Seq<char>, k: int)
    requires
        0 <= k <= s.len(),
    ensures
        utf8_len(s.take(k)) <= utf8_len(s),
    decreases s.len() - k,
{
    if k < s.len() {
        assert(s.take(k + 1).drop_last() =~= s.take(k));
        lemma_utf8_len_prefix(s, k + 1);
    } else {
        assert(s.take(k) =~= s);
    }
}

/// Calls `palette::named::from_str`: the SVG/CSS3 color with this name, if
/// any. Nothing is claimed of the table beyond its being a function of the name.
#[verifier::external_body]
fn lookup_named_color(name: &str) -> (r: Option<Rgb8>)
    ensures
        match r {
            Some(c) => named_color(name@) == Some((c.red, c.green, c.blue)),
            None => named_color(name@) is None,
        },
{
    match palette::named::from_str(name) {
        Some(c) => Some(Rgb8 { red: c.red, green: c.green, blue: c.blue }),
        None => None,
    }
}

/// Calls `<palette::Srgb<u8> as FromStr>::from_str`, which strips one leading
/// `#` and reads three or six hexadecimal digits with `u8::from_str_radix`.
/// On ASCII text (where its byte slicing cannot split a character) the result
/// is `hex_color`.
#[verifier::external_body]
fn parse_hex_color(hex: &str) -> (r: Result<Rgb8, palette::rgb::FromHexError>)
    requires
        hex.is_ascii(),
    ensures
        match r {
            Ok(c) => hex_color(hex@) == Some((c.red, c.green, c.blue)),
            Err(_) => hex_color(hex@) is None,
        },
{
    match hex.parse::<palette::Srgb<u8>>() {
        Ok(c) => Ok(Rgb8 { red: c.red, green: c.green, blue: c.blue }),
        Err(e) => Err(e),
    }
}

proof fn lemma_hex_color_needs_ascii(s: Seq<char>)
    requires
        hex_color(s) is Some,
    ensures
        vstd::utf8::is_ascii_chars(s),
{
    let code = if s.len() > 0 && s[0] == '#' {
        s.drop_first()
    } else {
        s
    };
    assert forall|i: int| 0 <= i < s.len() implies '\0' <= #[trigger] s[i] <= '\u{7f}' by {
        if s.len() > 0 && s[0] == '#' && i > 0 {
            assert(s[i] == code[i - 1]);
        }
    }
}

/// A known color name gives its color, whatever the text looks like as a
/// hex code.
pub proof fn lemma_name_wins(components: (u8, u8, u8), s: Seq<char>)
    ensures
        color_for(Some(components), s) == Ok::<Rgb8, ColorError>(
            Rgb8 { red: components.0, green: components.1, blue: components.2 },
        ),
{
}

proof fn lemma_utf8_len_ascii(s: Seq<char>)
    requires
        vstd::utf8::is_ascii_chars(s),
    ensures
        utf8_len(s) == s.len(),
    decreases s.len(),
{
    if s.len() > 0 {
        assert(vstd::utf8::is_ascii_chars(s.drop_last())) by {
            assert forall|i: int| 0 <= i < s.drop_last().len() implies '\0' <= #[trigger] s.drop_last()[i] <= '\u{7f}' by {
                assert(s.drop_last()[i] == s[i]);
            }
        }
        lemma_utf8_len_ascii(s.drop_last());
        assert('\0' <= s[s.len() - 1] <= '\u{7f}');
    }
}

/// Text that is not a color name but is a well-formed hex code gives the
/// color the code spells.
pub proof fn lemma_hex_when_unnamed(s: Seq<char>)
    ensures
        hex_color(s) matches Some((r, g, b)) ==> color_for(None, s) == Ok::<Rgb8, ColorError>(
            Rgb8 { red: r, green: g, blue: b },
        ),
{
    if hex_color(s) is Some {
        lemma_hex_color_needs_ascii(s);
        let code = hex_code(s);
        assert(vstd::utf8::is_ascii_chars(code)) by {
            assert forall|i: int| 0 <= i < code.len() implies '\0' <= #[trigger] code[i] <= '\u{7f}' by {
                if s.len() > 0 && s[0] == '#' {
                    assert(code[i] == s[i + 1]);
                }
            }
        }
        lemma_utf8_len_ascii(code);
    }
}

/// An argument that is not a color name is accepted only as a hex code,
/// and then gives the color that code spells.
pub proof fn lemma_unnamed_result_is_hex(s: Seq<char>)
    ensures
        color_for(None, s) matches Ok(c) ==> hex_color(s) == Some((c.red, c.green, c.blue)),
{
}

/// The lowercase hexadecimal digits, by value.
pub open spec fn hex_digit_chars() -> Seq<char> {
    seq!['0', '1', '2', '3', '4', '5', '6', '7', '8', '9', 'a', 'b', 'c', 'd', 'e', 'f']
}

/// A byte written as two lowercase hexadecimal digits.
pub open spec fn hex_pair(b: u8) -> Seq<char> {
    seq![hex_digit_chars()[(b / 16) as int], hex_digit_chars()[(b % 16) as int]]
}

proof fn lemma_hex_digit_chars(v: int)
    requires
        0 <= v < 16,
    ensures
        hex_digit(hex_digit_chars()[v]) == Some(v as u8),
        hex_digit_chars()[v] != '+',
{
}

proof fn lemma_hex_pair(b: u8)
    ensures
        hex_byte(hex_pair(b)[0], hex_pair(b)[1]) == Some(b),
{
    lemma_hex_digit_chars((b / 16) as int);
    lemma_hex_digit_chars((b % 16) as int);
    assert((b / 16) * 16 + b % 16 == b);
}

/// A color written `#rrggbb` in lowercase hex reads back as that color.
pub proof fn lemma_hex_roundtrip(red: u8, green: u8, blue: u8)
    ensures
        hex_color(seq!['#'] + hex_pair(red) + hex_pair(green) + hex_pair(blue)) == Some(
            (red, green, blue),
        ),
{
    let s = seq!['#'] + hex_pair(red) + hex_pair(green) + hex_pair(blue);
    lemma_hex_pair(red);
    lemma_hex_pair(green);
    lemma_hex_pair(blue);
    let code = hex_code(s);
    assert(code =~= hex_pair(red) + hex_pair(green) + hex_pair(blue));
    assert(code[0] == hex_pair(red)[0] && code[1] == hex_pair(red)[1]);
    assert(code[2] == hex_pair(green)[0] && code[3] == hex_pair(green)[1]);
    assert(code[4] == hex_pair(blue)[0] && code[5] == hex_pair(blue)[1]);
}

/// A color written `#rgb` in lowercase hex reads back with each digit
/// standing for itself repeated.
pub proof fn lemma_short_hex_roundtrip(r: u8, g: u8, b: u8)
    requires
        r < 16,
        g < 16,
        b < 16,
    ensures
        hex_color(
            seq!['#', hex_digit_chars()[r as int], hex_digit_chars()[g as int], hex_digit_chars()[b as int]],
        ) == Some(((r * 17) as u8, (g * 17) as u8, (b * 17) as u8)),
{
    lemma_hex_digit_chars(r as int);
    lemma_hex_digit_chars(g as int);
    lemma_hex_digit_chars(b as int);
    let s = seq!['#', hex_digit_chars()[r as int], hex_digit_chars()[g as int], hex_digit_chars()[b as int]];
    assert(hex_code(s) =~= seq![hex_digit_chars()[r as int], hex_digit_chars()[g as int], hex_digit_chars()[b as int]]);
}

/// The color that `s` names, given what the name table holds for `s`.
pub fn resolve_color(named: Option<Rgb8>, s: &str) -> (r: Result<Rgb8, ColorError>)
    ensures
        r == color_for(
            match named {
                Some(c) => Some((c.red, c.green, c.blue)),
                None => None,
            },
            s@,
        ),
        named matches Some(c) ==> r == Ok::<Rgb8, ColorError>(c),
{
    match named {
        Some(c) => Ok(c),
        None => {
            let n = s.unicode_len();
            let code = if n > 0 && s.get_char(0) == '#' {
                s.substring_char(1, n)
            } else {
                s
            };
            proof {
                assert(code@ =~= hex_code(s@));
            }
            let width = utf8_len_up_to_seven(code);
            if width != 3 && width != 6 {
                return Err(ColorError::HexFormat);
            }
            if !s.is_ascii() {
                proof {
                    if hex_color(s@) is Some {
                        lemma_hex_color_needs_ascii(s@);
                    }
                }
                return Err(ColorError::InvalidDigit);
            }
            match parse_hex_color(s) {
                Ok(c) => Ok(c),
                Err(_) => Err(ColorError::InvalidDigit),
            }
        },
    }
}

/// Reads a color argument: an SVG/CSS3 color name, else a hex code.
pub fn parse_color(s: &str) -> (r: Result<Rgb8, ColorError>)
    ensures
        r == color_for(named_color(s@), s@),
        named_color(s@) matches Some((red, green, blue)) ==> r == Ok::<Rgb8, ColorError>(
            Rgb8 { red, green, blue },
        ),
{
    let named = lookup_named_color(s);
    resolve_color(named, s)
}

} // verus!
