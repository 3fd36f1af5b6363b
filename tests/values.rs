use sfgmstenable::{is_edited, parse_gmst, value_kind, value_text, EGmstValue, ParseError, ValueKind};

fn bits(f: f32) -> u32 {
    f.to_bits()
}

#[test]
fn bool_literals_in_any_case() {
    assert_eq!(parse_gmst("bAlpha", "true", None), Ok(EGmstValue::Bool(true)));
    assert_eq!(parse_gmst("bAlpha", "TRUE", None), Ok(EGmstValue::Bool(true)));
    assert_eq!(parse_gmst("bAlpha", "False", None), Ok(EGmstValue::Bool(false)));
    assert_eq!(parse_gmst("bAlpha", "yes", None), Err(ParseError::BadLiteral));
    assert_eq!(parse_gmst("bAlpha", " true", None), Err(ParseError::BadLiteral));
}

#[test]
fn type_tag_is_case_insensitive() {
    assert_eq!(value_kind("BFoo"), Some(ValueKind::Bool));
    assert_eq!(value_kind("fFoo"), Some(ValueKind::Float));
    assert_eq!(value_kind("Ifoo"), Some(ValueKind::Int));
    assert_eq!(value_kind("uFoo"), Some(ValueKind::UInt));
    assert_eq!(value_kind("sFoo"), None);
    assert_eq!(value_kind(""), None);
}

#[test]
fn unknown_tag_is_rejected() {
    assert_eq!(parse_gmst("sName", "abc", None), Err(ParseError::UnknownType));
    assert_eq!(parse_gmst("", "1", None), Err(ParseError::UnknownType));
}

#[test]
fn signed_integers() {
    assert_eq!(parse_gmst("iCount", "42", None), Ok(EGmstValue::Int(42)));
    assert_eq!(parse_gmst("iCount", "-42", None), Ok(EGmstValue::Int(-42)));
    assert_eq!(parse_gmst("iCount", "+7", None), Ok(EGmstValue::Int(7)));
    assert_eq!(parse_gmst("iCount", "007", None), Ok(EGmstValue::Int(7)));
    assert_eq!(parse_gmst("iCount", "2147483647", None), Ok(EGmstValue::Int(i32::MAX)));
    assert_eq!(parse_gmst("iCount", "-2147483648", None), Ok(EGmstValue::Int(i32::MIN)));
    assert_eq!(parse_gmst("iCount", "2147483648", None), Err(ParseError::BadLiteral));
    assert_eq!(parse_gmst("iCount", "-", None), Err(ParseError::BadLiteral));
    assert_eq!(parse_gmst("iCount", "1.5", None), Err(ParseError::BadLiteral));
    assert_eq!(parse_gmst("iCount", "", None), Err(ParseError::BadLiteral));
}

#[test]
fn unsigned_integers() {
    assert_eq!(parse_gmst("uSize", "4294967295", None), Ok(EGmstValue::UInt(u32::MAX)));
    assert_eq!(parse_gmst("uSize", "4294967296", None), Err(ParseError::BadLiteral));
    assert_eq!(parse_gmst("uSize", "-0", None), Err(ParseError::BadLiteral));
    assert_eq!(parse_gmst("uSize", "+3", None), Ok(EGmstValue::UInt(3)));
}

#[test]
fn floats_come_from_the_reading() {
    assert_eq!(
        parse_gmst("fGamma", "1.5", Some(bits(1.5))),
        Ok(EGmstValue::Float(bits(1.5)))
    );
    assert_eq!(parse_gmst("fGamma", "abc", None), Err(ParseError::BadLiteral));
}

#[test]
fn values_are_written_as_text() {
    assert_eq!(value_text(&EGmstValue::Bool(true), ""), "True");
    assert_eq!(value_text(&EGmstValue::Bool(false), ""), "False");
    assert_eq!(value_text(&EGmstValue::Int(-120), ""), "-120");
    assert_eq!(value_text(&EGmstValue::Int(i32::MIN), ""), "-2147483648");
    assert_eq!(value_text(&EGmstValue::Int(0), ""), "0");
    assert_eq!(value_text(&EGmstValue::UInt(4294967295), ""), "4294967295");
    assert_eq!(value_text(&EGmstValue::Float(bits(1.5)), "1.5"), "1.5");
}

#[test]
fn written_values_read_back() {
    let cases = [
        ("bFlag", EGmstValue::Bool(true)),
        ("bFlag", EGmstValue::Bool(false)),
        ("iCount", EGmstValue::Int(-2147483648)),
        ("iCount", EGmstValue::Int(31)),
        ("uSize", EGmstValue::UInt(4294967295)),
    ];
    for (name, v) in cases {
        let text = value_text(&v, "");
        assert_eq!(parse_gmst(name, &text, None), Ok(v));
    }
    let f = EGmstValue::Float(bits(0.25));
    let text = value_text(&f, &0.25f32.to_string());
    let reading = text.parse::<f32>().ok().map(f32::to_bits);
    assert_eq!(parse_gmst("fScale", &text, reading), Ok(f));
}

#[test]
fn edited_means_different() {
    assert!(!is_edited(&EGmstValue::Int(1), &EGmstValue::Int(1)));
    assert!(is_edited(&EGmstValue::Int(1), &EGmstValue::Int(2)));
    assert!(is_edited(&EGmstValue::Bool(true), &EGmstValue::Int(1)));
    assert!(is_edited(&EGmstValue::Int(1), &EGmstValue::UInt(1)));
    assert!(is_edited(&EGmstValue::Float(bits(1.0)), &EGmstValue::Int(1)));
    assert!(!is_edited(&EGmstValue::Float(bits(0.0)), &EGmstValue::Float(bits(-0.0))));
    assert!(is_edited(&EGmstValue::Float(bits(f32::NAN)), &EGmstValue::Float(bits(f32::NAN))));
    assert!(!is_edited(&EGmstValue::Float(bits(2.5)), &EGmstValue::Float(bits(2.5))));
}
