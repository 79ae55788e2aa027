use memfrob::arguments::{parse_key_val, parse_resolution, split_angle, AngleText, ArgError};
use memfrob::text::{parse_char, parse_u32, split_once, trim, CharErrorKind, IntErrorKind};

#[test]
fn resolution_default_value() {
    assert_eq!(parse_resolution("512x512"), Ok((512, 512)));
    assert_eq!(parse_resolution("1920x1080"), Ok((1920, 1080)));
}

#[test]
fn resolution_errors() {
    assert_eq!(parse_resolution("512"), Err(ArgError::MissingSeparator('x')));
    assert_eq!(parse_resolution("x512"), Err(ArgError::InvalidInteger(IntErrorKind::Empty)));
    assert_eq!(parse_resolution("512x"), Err(ArgError::InvalidInteger(IntErrorKind::Empty)));
    assert_eq!(
        parse_resolution("4294967296x1"),
        Err(ArgError::InvalidInteger(IntErrorKind::PosOverflow))
    );
    assert_eq!(
        parse_resolution("1x2x3"),
        Err(ArgError::InvalidInteger(IntErrorKind::InvalidDigit))
    );
    assert_eq!(
        parse_resolution("-1x2"),
        Err(ArgError::InvalidInteger(IntErrorKind::InvalidDigit))
    );
    assert_eq!(
        parse_resolution(" 1x2"),
        Err(ArgError::InvalidInteger(IntErrorKind::InvalidDigit))
    );
}

#[test]
fn u32_parsing_matches_std() {
    for s in ["0", "+7", "007", "4294967295", "4294967296", "", "+", "-", "-0", "+-1", "12a", "99999999999a", "1 ", "٣"] {
        let expected = s.parse::<u32>().map_err(|e| match e.kind() {
            std::num::IntErrorKind::Empty => IntErrorKind::Empty,
            std::num::IntErrorKind::InvalidDigit => IntErrorKind::InvalidDigit,
            std::num::IntErrorKind::PosOverflow => IntErrorKind::PosOverflow,
            _ => unreachable!(),
        });
        assert_eq!(parse_u32(s), expected, "input {:?}", s);
    }
}

#[test]
fn char_parsing_matches_std() {
    assert_eq!(parse_char("F"), Ok('F'));
    assert_eq!(parse_char("é"), Ok('é'));
    assert_eq!(parse_char(""), Err(CharErrorKind::EmptyString));
    assert_eq!(parse_char("ab"), Err(CharErrorKind::TooManyChars));
}

#[test]
fn key_val_rules() {
    assert_eq!(parse_key_val("F=F+F--F+F"), Ok(('F', String::from("F+F--F+F"))));
    assert_eq!(parse_key_val("F="), Ok(('F', String::new())));
    assert_eq!(parse_key_val("F=a=b"), Ok(('F', String::from("a=b"))));
    assert_eq!(parse_key_val("=x"), Err(ArgError::InvalidChar(CharErrorKind::EmptyString)));
    assert_eq!(parse_key_val("ab=c"), Err(ArgError::InvalidChar(CharErrorKind::TooManyChars)));
    assert_eq!(parse_key_val("F"), Err(ArgError::MissingSeparator('=')));
}

#[test]
fn split_at_first_separator() {
    assert_eq!(split_once("10,0.5", ','), Some(("10", "0.5")));
    assert_eq!(split_once(",", ','), Some(("", "")));
    assert_eq!(split_once("a,b,c", ','), Some(("a", "b,c")));
    assert_eq!(split_once("10", ','), None);
}

#[test]
fn trimming_white_space() {
    assert_eq!(trim("  45 \t"), "45");
    assert_eq!(trim("\u{3000}x\u{a0}"), "x");
    assert_eq!(trim("   "), "");
    assert_eq!(trim(""), "");
    assert_eq!(trim("a b"), "a b");
}

fn angle(s: &str) -> (bool, &str) {
    match split_angle(s) {
        AngleText::Degrees(t) => (true, t),
        AngleText::Radians(t) => (false, t),
    }
}

#[test]
fn angle_units() {
    assert_eq!(angle("45º"), (true, "45"));
    assert_eq!(angle(" 45 º"), (true, " 45 "));
    assert_eq!(angle("30 deg"), (true, "30"));
    assert_eq!(angle(" 30deg"), (true, "30"));
    assert_eq!(angle("deg"), (true, ""));
    assert_eq!(angle("1.5"), (false, "1.5"));
    assert_eq!(angle("-0.5"), (false, "-0.5"));
    assert_eq!(angle(""), (false, ""));
}

#[test]
fn written_resolutions_read_back() {
    for (w, h) in [(0u32, 0u32), (512, 512), (7, 1080), (u32::MAX, 1), (10, u32::MAX)] {
        assert_eq!(parse_resolution(&format!("{}x{}", w, h)), Ok((w, h)));
    }
}

#[test]
fn written_rules_read_back() {
    for (symbol, production) in [('F', "F+F--F+F"), ('x', ""), ('é', "=="), ('|', "a=b")] {
        assert_eq!(
            parse_key_val(&format!("{}={}", symbol, production)),
            Ok((symbol, String::from(production)))
        );
    }
}

#[test]
fn error_messages() {
    assert_eq!(ArgError::MissingSeparator('x').message(), "no `x` found");
    assert_eq!(ArgError::MissingSeparator('=').message(), "no `=` found");
    assert_eq!(parse_resolution("512X512").unwrap_err().message(), "no `x` found");
    assert_eq!(parse_key_val("F").unwrap_err().message(), "no `=` found");
    assert_eq!(
        ArgError::InvalidInteger(IntErrorKind::InvalidDigit).message(),
        "invalid digit found in string"
    );
    assert_eq!(
        ArgError::InvalidChar(CharErrorKind::TooManyChars).message(),
        "too many characters in string"
    );
}

#[test]
fn error_messages_match_std() {
    for s in ["", "x", "4294967296"] {
        let std_message = s.parse::<u32>().unwrap_err().to_string();
        assert_eq!(parse_u32(s).unwrap_err().message(), std_message);
    }
    for s in ["", "ab"] {
        let std_message = s.parse::<char>().unwrap_err().to_string();
        assert_eq!(parse_char(s).unwrap_err().message(), std_message);
    }
}
