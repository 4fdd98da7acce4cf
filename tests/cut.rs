use csv::StringRecord;
use textcut::config::{new_extract, parse_delimiter, ConfigError};
use textcut::extract::{extract_bytes, extract_chars, extract_fields, Extract};
use textcut::position::{parse_pos, ParseError};

#[test]
fn test_parse_pos() {
    // the empty string is refused
    assert!(parse_pos("").is_err());
    // zero is refused
    let res = parse_pos("0");
    assert!(res.is_err());
    assert_eq!(res.unwrap_err().to_string(), "illegal list value: \"0\"");

    let res = parse_pos("0-1");
    assert!(res.is_err());
    assert_eq!(res.unwrap_err().to_string(), "illegal list value: \"0\"");

    // a leading + is refused
    let res = parse_pos("+1");
    assert!(res.is_err());
    assert_eq!(res.unwrap_err().to_string(), "illegal list value: \"+1\"");

    let res = parse_pos("+1-2");
    assert!(res.is_err());
    assert_eq!(res.unwrap_err().to_string(), "illegal list value: \"+1-2\"");

    let res = parse_pos("1-+2");
    assert!(res.is_err());
    assert_eq!(res.unwrap_err().to_string(), "illegal list value: \"1-+2\"");

    // anything but digits is refused
    let res = parse_pos("a");
    assert!(res.is_err());
    assert_eq!(res.unwrap_err().to_string(), "illegal list value: \"a\"");

    let res = parse_pos("1,a");
    assert!(res.is_err());
    assert_eq!(res.unwrap_err().to_string(), "illegal list value: \"a\"");

    let res = parse_pos("1-a");
    assert!(res.is_err());
    assert_eq!(res.unwrap_err().to_string(), "illegal list value: \"1-a\"");

    let res = parse_pos("a-1");
    assert!(res.is_err());
    assert_eq!(res.unwrap_err().to_string(), "illegal list value: \"a-1\"");

    // malformed ranges
    let res = parse_pos("-");
    assert!(res.is_err());

    let res = parse_pos(",");
    assert!(res.is_err());

    let res = parse_pos("1,");
    assert!(res.is_err());

    let res = parse_pos("1-");
    assert!(res.is_err());

    let res = parse_pos("1-1-1");
    assert!(res.is_err());

    let res = parse_pos("1-1-a");
    assert!(res.is_err());

    // the first number of a range must be below the second
    let res = parse_pos("1-1");
    assert!(res.is_err());
    assert_eq!(
        res.unwrap_err().to_string(),
        "First number in range (1) must be lower than second number (1)"
    );

    let res = parse_pos("2-1");
    assert!(res.is_err());
    assert_eq!(
        res.unwrap_err().to_string(),
        "First number in range (2) must be lower than second number (1)"
    );

    // these are accepted
    let res = parse_pos("1");
    assert!(res.is_ok());
    assert_eq!(res.unwrap(), vec![0..1]);

    let res = parse_pos("01");
    assert!(res.is_ok());
    assert_eq!(res.unwrap(), vec![0..1]);

    let res = parse_pos("1,3");
    assert!(res.is_ok());
    assert_eq!(res.unwrap(), vec![0..1, 2..3]);

    let res = parse_pos("001,0003");
    assert!(res.is_ok());
    assert_eq!(res.unwrap(), vec![0..1, 2..3]);

    let res = parse_pos("1-3");
    assert!(res.is_ok());
    assert_eq!(res.unwrap(), vec![0..3]);

    let res = parse_pos("0001-03");
    assert!(res.is_ok());
    assert_eq!(res.unwrap(), vec![0..3]);

    let res = parse_pos("1,7,3-5");
    assert!(res.is_ok());
    assert_eq!(res.unwrap(), vec![0..1, 6..7, 2..5]);

    let res = parse_pos("15,19-20");
    assert!(res.is_ok());
    assert_eq!(res.unwrap(), vec![14..15, 18..20]);
}

#[test]
fn test_extract_chars() {
    assert_eq!(extract_chars("", &[0..1]), "".to_string());
    assert_eq!(extract_chars("あbc", &[0..1]), "あ".to_string());
    assert_eq!(extract_chars("あbc", &[0..1, 2..3]), "あc".to_string());
    assert_eq!(extract_chars("あbc", &[0..3]), "あbc".to_string());
    assert_eq!(extract_chars("あbc", &[2..3, 1..2]), "cb".to_string());
    assert_eq!(
        extract_chars("あbc", &[0..1, 1..2, 4..5]),
        "あb".to_string()
    );
}

#[test]
fn test_extract_bytes() {
    assert_eq!(extract_bytes("あbc", &[0..1]), "�".to_string());
    assert_eq!(extract_bytes("あbc", &[0..3]), "あ".to_string());
    assert_eq!(extract_bytes("あbc", &[0..4]), "あb".to_string());
    assert_eq!(extract_bytes("あbc", &[0..5]), "あbc".to_string());
    assert_eq!(extract_bytes("あbc", &[4..5, 3..4]), "cb".to_string());
    assert_eq!(extract_bytes("あbc", &[0..3, 6..7]), "あ".to_string());
}

#[test]
fn test_extract_fields() {
    let rec = StringRecord::from(vec!["Captain", "Sham", "12345"]);
    assert_eq!(extract_fields(&rec, &[0..1]), &["Captain"]);
    assert_eq!(extract_fields(&rec, &[1..2]), &["Sham"]);
    assert_eq!(extract_fields(&rec, &[0..1, 2..3]), &["Captain", "12345"]);
}

#[test]
fn parse_errors_carry_their_fields() {
    assert_eq!(
        parse_pos(""),
        Err(ParseError::IllegalToken("".to_string()))
    );
    assert_eq!(
        parse_pos("0"),
        Err(ParseError::IllegalToken("0".to_string()))
    );
    assert_eq!(
        parse_pos("+1"),
        Err(ParseError::IllegalToken("+1".to_string()))
    );
    assert_eq!(parse_pos("1-1"), Err(ParseError::RangeOrder(1, 1)));
    assert_eq!(parse_pos("2-1"), Err(ParseError::RangeOrder(2, 1)));
    assert_eq!(parse_pos("002-01"), Err(ParseError::RangeOrder(2, 1)));
    assert_eq!(
        parse_pos("1-1-1"),
        Err(ParseError::IllegalToken("1-1-1".to_string()))
    );
    assert_eq!(
        parse_pos("3,5-0"),
        Err(ParseError::IllegalToken("0".to_string()))
    );
}

#[test]
fn parse_stops_at_first_bad_token() {
    assert_eq!(
        parse_pos("1,x,2-1"),
        Err(ParseError::IllegalToken("x".to_string()))
    );
    assert_eq!(parse_pos("1,2-1,x"), Err(ParseError::RangeOrder(2, 1)));
}

#[test]
fn parse_keeps_order_and_duplicates() {
    assert_eq!(parse_pos("3,1,1-2,1"), Ok(vec![2..3, 0..1, 0..2, 0..1]));
}

#[test]
fn parse_number_too_large_is_illegal() {
    assert_eq!(
        parse_pos("99999999999999999999999"),
        Err(ParseError::IllegalToken("99999999999999999999999".to_string()))
    );
    assert_eq!(
        parse_pos("1-99999999999999999999999"),
        Err(ParseError::IllegalToken("99999999999999999999999".to_string()))
    );
    assert_eq!(
        parse_pos("18446744073709551615"),
        Ok(vec![18446744073709551614..18446744073709551615])
    );
}

#[test]
fn parse_twice_gives_the_same() {
    for s in ["1,7,3-5", "15,19-20", "2-1", "a"] {
        assert_eq!(parse_pos(s), parse_pos(s));
    }
}

#[test]
fn chars_are_never_split() {
    assert_eq!(extract_chars("aあb", &[1..2]), "あ".to_string());
    assert_eq!(extract_chars("abc", &[0..1, 2..3]), "ac".to_string());
}

#[test]
fn bytes_half_a_character_gives_replacement() {
    let r = extract_bytes("あbc", &[1..4]);
    assert!(r.contains('\u{FFFD}'));
    assert!(r.ends_with('b'));
    assert_eq!(extract_bytes("abc", &[0..1, 10..20]), "a".to_string());
}

#[test]
fn fields_out_of_range_give_nothing() {
    let rec = StringRecord::from(vec!["Captain", "Sham", "12345"]);
    assert_eq!(extract_fields(&rec, &[5..6]), Vec::<String>::new());
    assert_eq!(extract_fields(&rec, &[0..1, 5..6, 0..1]), &["Captain", "Captain"]);
    assert_eq!(extract_fields(&rec, &[1..10]), &["Sham", "12345"]);
}

#[test]
fn selector_must_be_exactly_one() {
    assert_eq!(
        new_extract(None, None, None).unwrap_err(),
        ConfigError::MissingSelector
    );
    assert_eq!(
        new_extract(Some("1"), Some("1"), None).unwrap_err(),
        ConfigError::ConflictingSelectors
    );
    match new_extract(None, Some("1,3"), None) {
        Ok(Extract::Bytes(v)) => assert_eq!(v, vec![0..1, 2..3]),
        other => panic!("unexpected {:?}", other),
    }
    match new_extract(Some("2-3"), None, None) {
        Ok(Extract::Fields(v)) => assert_eq!(v, vec![1..3]),
        other => panic!("unexpected {:?}", other),
    }
    match new_extract(None, None, Some("4")) {
        Ok(Extract::Chars(v)) => assert_eq!(v, vec![3..4]),
        other => panic!("unexpected {:?}", other),
    }
    let e = new_extract(None, None, Some("0")).unwrap_err();
    assert_eq!(e, ConfigError::Parse(ParseError::IllegalToken("0".to_string())));
    assert_eq!(e.to_string(), "illegal list value: \"0\"");
    assert!(ConfigError::MissingSelector
        .to_string()
        .contains("<--fields <FIELDS>|--bytes <BYTES>|--chars <CHARS>>"));
}

#[test]
fn delimiter_must_be_one_byte() {
    assert_eq!(parse_delimiter(","), Ok(b','));
    assert_eq!(parse_delimiter("\t"), Ok(b'\t'));
    let e = parse_delimiter(",,").unwrap_err();
    assert_eq!(e, ConfigError::BadDelimiter(",,".to_string()));
    assert_eq!(e.to_string(), "--delim \",,\" must be a single byte");
    assert!(parse_delimiter("").is_err());
    assert!(parse_delimiter("あ").is_err());
}
