use hexdump::unit::{parse_unit, UnitParseError};

#[test]
fn test_parse_unit() {
    let expected = 1024;
    let result = parse_unit("1K").unwrap();
    assert_eq!(expected, result);

    let expected = 1024 * 1024;
    let result = parse_unit("1M").unwrap();
    assert_eq!(expected, result);

    let expected = 3000;
    let result = parse_unit("3kb").unwrap();
    assert_eq!(expected, result);

    let expected = 1000;
    let result = parse_unit("1kb").unwrap();
    assert_eq!(expected, result);

    let expected = 2;
    let result = parse_unit("2").unwrap();
    assert_eq!(expected, result);

    let expected = 2000000;
    let result = parse_unit("2mb").unwrap();
    assert_eq!(expected, result);

    let expected = 1000000;
    let result = parse_unit("1mb").unwrap();
    assert_eq!(expected, result);
}

#[test]
fn parse_unit_plain_and_signed() {
    assert_eq!(parse_unit("0"), Ok(0));
    assert_eq!(parse_unit("007"), Ok(7));
    assert_eq!(parse_unit("+5"), Ok(5));
    assert_eq!(parse_unit("0kb"), Ok(0));
    assert_eq!(parse_unit("+2K"), Ok(2048));
}

#[test]
fn parse_unit_invalid_text() {
    assert_eq!(parse_unit(""), Err(UnitParseError::Invalid));
    assert_eq!(parse_unit("abc"), Err(UnitParseError::Invalid));
    assert_eq!(parse_unit("+"), Err(UnitParseError::Invalid));
    assert_eq!(parse_unit("-1"), Err(UnitParseError::Invalid));
    assert_eq!(parse_unit(" 3"), Err(UnitParseError::Invalid));
    assert_eq!(parse_unit("3 "), Err(UnitParseError::Invalid));
    assert_eq!(parse_unit("12x"), Err(UnitParseError::Invalid));
    assert_eq!(parse_unit("kb"), Err(UnitParseError::Invalid));
    assert_eq!(parse_unit("+kb"), Err(UnitParseError::Invalid));
    assert_eq!(parse_unit("++3"), Err(UnitParseError::Invalid));
    assert_eq!(parse_unit("1.5kb"), Err(UnitParseError::Invalid));
}

#[test]
fn parse_unit_suffixes_are_case_sensitive() {
    assert_eq!(parse_unit("1KB"), Err(UnitParseError::Invalid));
    assert_eq!(parse_unit("1Kb"), Err(UnitParseError::Invalid));
    assert_eq!(parse_unit("1k"), Err(UnitParseError::Invalid));
    assert_eq!(parse_unit("1m"), Err(UnitParseError::Invalid));
    assert_eq!(parse_unit("1MB"), Err(UnitParseError::Invalid));
}

#[test]
fn parse_unit_overflow() {
    // More digits than any usize holds.
    assert_eq!(
        parse_unit("100000000000000000000"),
        Err(UnitParseError::Overflow)
    );
    // The digits fit in 64 bits but the multiplier pushes them out.
    assert_eq!(
        parse_unit("18000000000000000000kb"),
        Err(UnitParseError::Overflow)
    );
}
