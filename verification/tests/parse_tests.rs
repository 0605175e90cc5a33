use textutils::parse::parse_positive_int;

#[test]
fn test_parse_positive_int() {
    let res = parse_positive_int("3");
    assert!(res.is_ok());
    assert_eq!(res.unwrap(), 3);

    let res = parse_positive_int("foo");
    assert!(res.is_err());
    assert_eq!(res.unwrap_err().to_string(), "foo".to_string());

    let res = parse_positive_int("0");
    assert!(res.is_err());
    assert_eq!(res.unwrap_err().to_string(), "0".to_string());
}

#[test]
fn accepts_a_leading_plus_sign() {
    let res = parse_positive_int("+42");
    assert!(res.is_ok());
    assert_eq!(res.unwrap(), 42);
}

#[test]
fn rejects_empty_signed_and_overlarge_input() {
    assert_eq!(parse_positive_int("").unwrap_err(), "".to_string());
    assert_eq!(parse_positive_int("+").unwrap_err(), "+".to_string());
    assert_eq!(parse_positive_int("+0").unwrap_err(), "+0".to_string());
    assert_eq!(parse_positive_int("-3").unwrap_err(), "-3".to_string());
    assert_eq!(parse_positive_int("3x").unwrap_err(), "3x".to_string());
    let too_large = "99999999999999999999999999";
    assert_eq!(parse_positive_int(too_large).unwrap_err(), too_large.to_string());
}

#[test]
fn parses_the_largest_machine_word() {
    let max = usize::MAX.to_string();
    let res = parse_positive_int(&max);
    assert!(res.is_ok());
    assert_eq!(res.unwrap(), usize::MAX);
}
