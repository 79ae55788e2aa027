//! Character-level text helpers: searching, splitting, trimming and
//! decimal integer parsing, as the command-line parsers use them.
use vstd::prelude::*;

verus! {

/// Why a decimal integer could not be read.
#[derive(Clone, Copy, Debug, PartialEq, Eq, Structural)]
pub enum IntErrorKind {
    /// The text was empty.
    Empty,
    /// A character is not a decimal digit (a lone sign counts as one).
    InvalidDigit,
    /// The value does not fit in the target type.
    PosOverflow,
}

/// Why a single character could not be read.
#[derive(Clone, Copy, Debug, PartialEq, Eq, Structural)]
pub enum CharErrorKind {
    /// The text was empty.
    EmptyString,
    /// The text holds more than one character.
    TooManyChars,
}

/// The text that `std::num::ParseIntError` displays for an error of this kind.
pub open spec fn int_error_text(kind: IntErrorKind) -> Seq<char> {
    match kind {
        IntErrorKind::Empty => "cannot parse integer from empty string"@,
        IntErrorKind::InvalidDigit => "invalid digit found in string"@,
        IntErrorKind::PosOverflow => "number too large to fit in target type"@,
    }
}

impl IntErrorKind {
    /// The message that describes this error.
    pub fn message(&self) -> (r: String)
        ensures
            r@ == int_error_text(*self),
    {
        match self {
            IntErrorKind::Empty => "cannot parse integer from empty string".to_owned(),
            IntErrorKind::InvalidDigit => "invalid digit found in string".to_owned(),
            IntErrorKind::PosOverflow => "number too large to fit in target type".to_owned(),
        }
    }
}

/// The text that `std::char::ParseCharError` displays for an error of this kind.
pub open spec fn char_error_text(kind: CharErrorKind) -> Seq<char> {
    match kind {
        CharErrorKind::EmptyString => "cannot parse char from empty string"@,
        CharErrorKind::TooManyChars => "too many characters in string"@,
    }
}

impl CharErrorKind {
    /// The message that describes this error.
    pub fn message(&self) -> (r: String)
        ensures
            r@ == char_error_text(*self),
    {
        match self {
            CharErrorKind::EmptyString => "cannot parse char from empty string".to_owned(),
            CharErrorKind::TooManyChars => "too many characters in string".to_owned(),
        }
    }
}

/// The position of the first occurrence of `c` in `s`.
pub open spec fn first_index(s: Seq<char>, c: char) -> Option<int>
    decreases s.len(),
{
    if s.len() == 0 {
        None
    } else if s[0] == c {
        Some(0)
    } else {
        match first_index(s.drop_first(), c) {
            Some(i) => Some(i + 1),
            None => None,
        }
    }
}

/// The text before and after the first occurrence of `sep`.
pub open spec fn split_first(s: Seq<char>, sep: char) -> Option<(Seq<char>, Seq<char>)> {
    match first_index(s, sep) {
        Some(p) => Some((s.take(p), s.skip(p + 1))),
        None => None,
    }
}

/// `first_index` is the least position holding `c`.
pub proof fn lemma_first_index(s: Seq<char>, c: char)
    ensures
        match first_index(s, c) {
            Some(p) => 0 <= p < s.len() && s[p] == c && forall|q: int| 0 <= q < p ==> s[q] != c,
            None => forall|q: int| 0 <= q < s.len() ==> s[q] != c,
        },
    decreases s.len(),
{
    if s.len() > 0 && s[0] != c {
        lemma_first_index(s.drop_first(), c);
        match first_index(s.drop_first(), c) {
            Some(p) => {
                assert forall|q: int| 0 <= q < p + 1 implies s[q] != c by {
                    if q > 0 {
                        assert(s[q] == s.drop_first()[q - 1]);
                    }
                }
            },
            None => {
                assert forall|q: int| 0 <= q < s.len() implies s[q] != c by {
                    if q > 0 {
                        assert(s[q] == s.drop_first()[q - 1]);
                    }
                }
            },
        }
    }
}

/// The least position holding `c` characterises `first_index`.
pub proof fn lemma_first_index_at(s: Seq<char>, c: char, p: int)
    requires
        0 <= p < s.len(),
        s[p] == c,
        forall|q: int| 0 <= q < p ==> s[q] != c,
    ensures
        first_index(s, c) == Some(p),
{
    lemma_first_index(s, c);
    match first_index(s, c) {
        Some(i) => {
            if i < p {
                assert(s[i] != c);
            }
        },
        None => {
            assert(s[p] != c);
        },
    }
}

/// Splitting at the first separator gives the text before it, which holds
/// no separator, and the text after it, which together with the separator
/// make up the whole; text without the separator is not split.
pub proof fn lemma_split_first(s: Seq<char>, sep: char)
    ensures
        match split_first(s, sep) {
            Some((left, right)) => left + seq![sep] + right == s && !left.contains(sep),
            None => !s.contains(sep),
        },
{
    lemma_first_index(s, sep);
    match first_index(s, sep) {
        Some(p) => {
            let left = s.take(p);
            assert(left + seq![sep] + s.skip(p + 1) =~= s);
            if left.contains(sep) {
                let q = choose|q: int| 0 <= q < left.len() && left[q] == sep;
                assert(s[q] == sep);
            }
        },
        None => {
            if s.contains(sep) {
                let q = choose|q: int| 0 <= q < s.len() && s[q] == sep;
                assert(s[q] != sep);
            }
        },
    }
}

/// The position of the first `c` in `s`, if any.
pub fn find_char(s: &str, c: char) -> (r: Option<usize>)
    ensures
        match r {
            Some(p) => first_index(s@, c) == Some(p as int),
            None => first_index(s@, c) is None,
        },
{
    let n = s.unicode_len();
    let mut i: usize = 0;
    while i < n
        invariant
            n == s@.len(),
            i <= n,
            forall|q: int| 0 <= q < i ==> s@[q] != c,
        decreases n - i,
    {
        if s.get_char(i) == c {
            proof {
                lemma_first_index_at(s@, c, i as int);
            }
            return Some(i);
        }
        i = i + 1;
    }
    proof {
        lemma_first_index(s@, c);
        if let Some(p) = first_index(s@, c) {
            assert(s@[p] != c);
        }
    }
    None
}

/// The text before and after the first `sep`, if `s` holds one.
pub fn split_once(s: &str, sep: char) -> (r: Option<(&str, &str)>)
    ensures
        match r {
            Some((left, right)) => split_first(s@, sep) == Some((left@, right@)),
            None => split_first(s@, sep) is None,
        },
{
    match find_char(s, sep) {
        Some(p) => {
            let n = s.unicode_len();
            proof {
                lemma_first_index(s@, sep);
            }
            let left = s.substring_char(0, p);
            let right = s.substring_char(p + 1, n);
            proof {
                assert(left@ =~= s@.take(p as int));
                assert(right@ =~= s@.skip(p + 1));
            }
            Some((left, right))
        },
        None => None,
    }
}

/// Characters that `char::is_whitespace` accepts: those with the Unicode
/// `White_Space` property.
pub open spec fn is_space(c: char) -> bool {
    ('\u{9}' <= c && c <= '\u{d}') || c == ' ' || c == '\u{85}' || c == '\u{a0}' || c
        == '\u{1680}' || ('\u{2000}' <= c && c <= '\u{200a}') || c == '\u{2028}' || c
        == '\u{2029}' || c == '\u{202f}' || c == '\u{205f}' || c == '\u{3000}'
}

/// Whether `c` is white space.
pub fn is_whitespace(c: char) -> (r: bool)
    ensures
        r == is_space(c),
{
    ('\u{9}' <= c && c <= '\u{d}') || c == ' ' || c == '\u{85}' || c == '\u{a0}' || c
        == '\u{1680}' || ('\u{2000}' <= c && c <= '\u{200a}') || c == '\u{2028}' || c
        == '\u{2029}' || c == '\u{202f}' || c == '\u{205f}' || c == '\u{3000}'
}

/// Number of white-space characters at the start of `s`.
pub open spec fn leading_space(s: Seq<char>) -> nat
    decreases s.len(),
{
    if s.len() > 0 && is_space(s[0]) {
        1 + leading_space(s.drop_first())
    } else {
        0
    }
}

/// Number of white-space characters at the end of `s`.
pub open spec fn trailing_space(s: Seq<char>) -> nat
    decreases s.len(),
{
    if s.len() > 0 && is_space(s.last()) {
        1 + trailing_space(s.drop_last())
    } else {
        0
    }
}

/// `s` without leading and trailing white space.
pub open spec fn trimmed(s: Seq<char>) -> Seq<char> {
    let t = s.skip(leading_space(s) as int);
    t.take(t.len() - trailing_space(t))
}

proof fn lemma_leading_space_bound(s: Seq<char>)
    ensures
        leading_space(s) <= s.len(),
    decreases s.len(),
{
    if s.len() > 0 && is_space(s[0]) {
        lemma_leading_space_bound(s.drop_first());
    }
}

proof fn lemma_trailing_space_bound(s: Seq<char>)
    ensures
        trailing_space(s) <= s.len(),
    decreases s.len(),
{
    if s.len() > 0 && is_space(s.last()) {
        lemma_trailing_space_bound(s.drop_last());
    }
}

proof fn lemma_leading_space_prefix(s: Seq<char>)
    ensures
        leading_space(s) <= s.len(),
        forall|i: int| 0 <= i < leading_space(s) ==> is_space(#[trigger] s[i]),
        leading_space(s) < s.len() ==> !is_space(s[leading_space(s) as int]),
    decreases s.len(),
{
    if s.len() > 0 && is_space(s[0]) {
        lemma_leading_space_prefix(s.drop_first());
        assert forall|i: int| 0 <= i < leading_space(s) implies is_space(#[trigger] s[i]) by {
            if i > 0 {
                assert(s[i] == s.drop_first()[i - 1]);
            }
        }
        if leading_space(s) < s.len() {
            assert(s[leading_space(s) as int] == s.drop_first()[leading_space(s) - 1]);
        }
    }
}

proof fn lemma_trailing_space_suffix(s: Seq<char>)
    ensures
        trailing_space(s) <= s.len(),
        forall|i: int| s.len() - trailing_space(s) <= i < s.len() ==> is_space(#[trigger] s[i]),
        trailing_space(s) < s.len() ==> !is_space(s[s.len() - trailing_space(s) - 1]),
    decreases s.len(),
{
    if s.len() > 0 && is_space(s.last()) {
        lemma_trailing_space_suffix(s.drop_last());
        assert forall|i: int| s.len() - trailing_space(s) <= i < s.len() implies is_space(
            #[trigger] s[i],
        ) by {
            if i < s.len() - 1 {
                assert(s[i] == s.drop_last()[i]);
            }
        }
        if trailing_space(s) < s.len() {
            assert(s[s.len() - trailing_space(s) - 1] == s.drop_last()[s.len() - trailing_space(s) - 1]);
        }
    }
}

/// Trimming cuts off only white space, from both ends, and all of it: the
/// text is some white space, the trimmed text, and some white space, and the
/// trimmed text neither starts nor ends with white space.
pub proof fn lemma_trimmed(s: Seq<char>)
    ensures
        ({
            let t = trimmed(s);
            let a = leading_space(s) as int;
            &&& s.subrange(a, a + t.len()) == t
            &&& forall|i: int| 0 <= i < a ==> is_space(#[trigger] s[i])
            &&& forall|i: int| a + t.len() <= i < s.len() ==> is_space(#[trigger] s[i])
            &&& t.len() > 0 ==> !is_space(t[0]) && !is_space(t.last())
        }),
{
    lemma_leading_space_prefix(s);
    let a = leading_space(s) as int;
    let u = s.skip(a);
    lemma_trailing_space_suffix(u);
    let t = trimmed(s);
    assert(t =~= s.subrange(a, a + t.len()));
    assert forall|i: int| a + t.len() <= i < s.len() implies is_space(#[trigger] s[i]) by {
        assert(s[i] == u[i - a]);
    }
    if t.len() > 0 {
        assert(t[0] == s[a]);
        assert(t.last() == u[u.len() - trailing_space(u) - 1]);
    }
}

/// `s` without leading and trailing white space.
pub fn trim(s: &str) -> (r: &str)
    ensures
        r@ == trimmed(s@),
{
    let n = s.unicode_len();
    let mut start: usize = 0;
    proof {
        assert(s@.skip(0) =~= s@);
    }
    while start < n && is_whitespace(s.get_char(start))
        invariant
            n == s@.len(),
            start <= n,
            start + leading_space(s@.skip(start as int)) == leading_space(s@),
        decreases n - start,
    {
        proof {
            assert(s@.skip(start as int).drop_first() =~= s@.skip(start + 1));
        }
        start = start + 1;
    }
    let ghost t = s@.skip(start as int);
    proof {
        assert(leading_space(t) == 0);
    }
    let mut end: usize = n;
    proof {
        assert(t.take(n - start) =~= t);
    }
    while end > start && is_whitespace(s.get_char(end - 1))
        invariant
            n == s@.len(),
            start <= end <= n,
            t == s@.skip(start as int),
            trailing_space(t) == (n - end) + trailing_space(t.take(end - start)),
        decreases end,
    {
        proof {
            assert(t.take(end - start).drop_last() =~= t.take(end - start - 1));
            assert(t.take(end - start).last() == s@[end - 1]);
        }
        end = end - 1;
    }
    proof {
        assert(t.take(n - start) =~= t);
        if end > start {
            assert(t.take(end - start).last() == s@[end - 1]);
        }
        assert(trailing_space(t.take(end - start)) == 0);
        assert(s@.subrange(start as int, end as int) =~= t.take(t.len() - trailing_space(t)));
    }
    s.substring_char(start, end)
}

/// Whether `c` is a decimal digit.
pub open spec fn is_digit(c: char) -> bool {
    '0' <= c && c <= '9'
}

/// The value of a decimal digit.
pub open spec fn digit_value(c: char) -> int {
    c as int - '0' as int
}

/// Reading decimal digits from left to right into a `u32`, stopping at the
/// first character that is not a digit or that makes the value too large.
pub open spec fn scan_digits(d: Seq<char>) -> Result<u32, IntErrorKind>
    decreases d.len(),
{
    if d.len() == 0 {
        Ok(0)
    } else {
        match scan_digits(d.drop_last()) {
            Err(e) => Err(e),
            Ok(v) => if !is_digit(d.last()) {
                Err(IntErrorKind::InvalidDigit)
            } else if v * 10 + digit_value(d.last()) > u32::MAX {
                Err(IntErrorKind::PosOverflow)
            } else {
                Ok((v * 10 + digit_value(d.last())) as u32)
            },
        }
    }
}

/// What `str::parse::<u32>` gives for `s`: an optional leading `+`, then
/// decimal digits whose value fits in a `u32`.
pub open spec fn decimal_u32(s: Seq<char>) -> Result<u32, IntErrorKind> {
    if s.len() == 0 {
        Err(IntErrorKind::Empty)
    } else if s.len() == 1 && (s[0] == '+' || s[0] == '-') {
        Err(IntErrorKind::InvalidDigit)
    } else if s[0] == '+' {
        scan_digits(s.drop_first())
    } else {
        scan_digits(s)
    }
}

fn digit(c: char) -> (r: Option<u32>)
    ensures
        match r {
            Some(v) => is_digit(c) && v == digit_value(c),
            None => !is_digit(c),
        },
{
    match c {
        '0' => Some(0),
        '1' => Some(1),
        '2' => Some(2),
        '3' => Some(3),
        '4' => Some(4),
        '5' => Some(5),
        '6' => Some(6),
        '7' => Some(7),
        '8' => Some(8),
        '9' => Some(9),
        _ => None,
    }
}

/// Reads a `u32` written in decimal, as `str::parse::<u32>` does.
pub fn parse_u32(s: &str) -> (r: Result<u32, IntErrorKind>)
    ensures
        r == decimal_u32(s@),
{
    let n = s.unicode_len();
    if n == 0 {
        return Err(IntErrorKind::Empty);
    }
    let first = s.get_char(0);
    if n == 1 && (first == '+' || first == '-') {
        return Err(IntErrorKind::InvalidDigit);
    }
    let start: usize = if first == '+' { 1 } else { 0 };
    let ghost d = if first == '+' { s@.drop_first() } else { s@ };
    proof {
        assert(d =~= s@.skip(start as int));
        assert(d.take(0) =~= Seq::<char>::empty());
    }
    let mut value: u32 = 0;
    let mut i: usize = start;
    while i < n
        invariant
            n == s@.len(),
            start <= i <= n,
            d == s@.skip(start as int),
            decimal_u32(s@) == scan_digits(d),
            scan_digits(d.take(i - start)) == Ok::<u32, IntErrorKind>(value),
        decreases n - i,
    {
        let c = s.get_char(i);
        let ghost prefix = d.take(i + 1 - start);
        proof {
            assert(prefix.drop_last() =~= d.take(i - start));
            assert(prefix.last() == c);
        }
        match digit(c) {
            None => {
                proof {
                    assert(scan_digits(prefix) == Err::<u32, IntErrorKind>(IntErrorKind::InvalidDigit));
                    lemma_scan_error_persists(d, i + 1 - start);
                }
                return Err(IntErrorKind::InvalidDigit);
            },
            Some(v) => {
                if value > 429496729 || (value == 429496729 && v > 5) {
                    proof {
                        assert(scan_digits(prefix) == Err::<u32, IntErrorKind>(IntErrorKind::PosOverflow));
                        lemma_scan_error_persists(d, i + 1 - start);
                    }
                    return Err(IntErrorKind::PosOverflow);
                }
                value = value * 10 + v;
            },
        }
        i = i + 1;
    }
    proof {
        assert(d.take(n - start) =~= d);
    }
    Ok(value)
}

/// Once reading stops at an error, the rest of the text does not change it.
proof fn lemma_scan_error_persists(d: Seq<char>, k: int)
    requires
        0 <= k <= d.len(),
        scan_digits(d.take(k)) is Err,
    ensures
        scan_digits(d) == scan_digits(d.take(k)),
    decreases d.len() - k,
{
    if k < d.len() {
        assert(d.take(k + 1).drop_last() =~= d.take(k));
        lemma_scan_error_persists(d, k + 1);
    } else {
        assert(d.take(k) =~= d);
    }
}

/// Whether two texts hold the same characters.
pub fn same_text(a: &str, b: &str) -> (r: bool)
    ensures
        r == (a@ == b@),
{
    let n = a.unicode_len();
    if n != b.unicode_len() {
        return false;
    }
    let mut i: usize = 0;
    while i < n
        invariant
            n == a@.len(),
            n == b@.len(),
            i <= n,
            forall|k: int| 0 <= k < i ==> a@[k] == b@[k],
        decreases n - i,
    {
        if a.get_char(i) != b.get_char(i) {
            return false;
        }
        i = i + 1;
    }
    proof {
        assert(a@ =~= b@);
    }
    true
}

/// The value of a run of decimal digits.
pub open spec fn digits_value(d: Seq<char>) -> int
    decreases d.len(),
{
    if d.len() == 0 {
        0
    } else {
        digits_value(d.drop_last()) * 10 + digit_value(d.last())
    }
}

proof fn lemma_scan_ok(d: Seq<char>)
    ensures
        scan_digits(d) matches Ok(v) ==> (forall|i: int| 0 <= i < d.len() ==> is_digit(
            #[trigger] d[i],
        )) && v == digits_value(d),
    decreases d.len(),
{
    if d.len() > 0 {
        lemma_scan_ok(d.drop_last());
        if scan_digits(d) is Ok {
            assert forall|i: int| 0 <= i < d.len() implies is_digit(#[trigger] d[i]) by {
                if i < d.len() - 1 {
                    assert(d[i] == d.drop_last()[i]);
                }
            }
        }
    }
}

/// A text reads as a number only if it is one or more decimal digits, with
/// at most a leading `+`, and then it reads as the value of those digits;
/// only the empty text is refused as empty.
pub proof fn lemma_decimal_u32_accepts(s: Seq<char>)
    ensures
        decimal_u32(s) matches Ok(v) ==> {
            let d = if s[0] == '+' {
                s.drop_first()
            } else {
                s
            };
            &&& d.len() > 0
            &&& forall|i: int| 0 <= i < d.len() ==> is_digit(#[trigger] d[i])
            &&& v == digits_value(d)
        },
        (decimal_u32(s) == Err::<u32, IntErrorKind>(IntErrorKind::Empty)) == (s.len() == 0),
{
    if s.len() > 0 {
        lemma_scan_ok(s.drop_first());
        lemma_scan_ok(s);
        if s.len() == 1 && s[0] == '+' {
        } else if decimal_u32(s) is Ok {
            if s[0] == '+' {
                assert(s.drop_first().len() > 0);
            } else {
                assert(is_digit(s[0]));
            }
        }
        lemma_scan_never_empty(s.drop_first());
        lemma_scan_never_empty(s);
    }
}

proof fn lemma_scan_never_empty(d: Seq<char>)
    ensures
        scan_digits(d) != Err::<u32, IntErrorKind>(IntErrorKind::Empty),
    decreases d.len(),
{
    if d.len() > 0 {
        lemma_scan_never_empty(d.drop_last());
    }
}

/// What `str::parse::<char>` gives for `s`: its only character.
pub open spec fn single_char(s: Seq<char>) -> Result<char, CharErrorKind> {
    if s.len() == 0 {
        Err(CharErrorKind::EmptyString)
    } else if s.len() > 1 {
        Err(CharErrorKind::TooManyChars)
    } else {
        Ok(s[0])
    }
}

/// A text of one character reads as that character; a longer one is refused.
pub proof fn lemma_single_char(c: char, rest: Seq<char>)
    ensures
        single_char(seq![c]) == Ok::<char, CharErrorKind>(c),
        rest.len() > 0 ==> single_char(seq![c] + rest) == Err::<char, CharErrorKind>(
            CharErrorKind::TooManyChars,
        ),
{
}

/// Reads a single character, as `str::parse::<char>` does.
pub fn parse_char(s: &str) -> (r: Result<char, CharErrorKind>)
    ensures
        r == single_char(s@),
{
    let n = s.unicode_len();
    if n == 0 {
        Err(CharErrorKind::EmptyString)
    } else if n > 1 {
        Err(CharErrorKind::TooManyChars)
    } else {
        Ok(s.get_char(0))
    }
}

} // verus!
