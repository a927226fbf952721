use lineutils::head::{first_bytes, first_lines, format_banner, parse_positive_int, show_bytes};

#[test]
fn test_parse_positive_init() {
    // 3 is an OK integer
    let res = parse_positive_int("3");
    assert!(res.is_ok());
    assert_eq!(res.unwrap(), 3);

    // Any string is an error
    let res = parse_positive_int("foo");
    assert!(res.is_err());
    assert_eq!(res.unwrap_err().to_string(), "foo".to_string());

    // A zero is an error
    let res = parse_positive_int("0");
    assert!(res.is_err());
    assert_eq!(res.unwrap_err().to_string(), "0".to_string())
}

#[test]
fn parse_positive_int_agrees_with_std() {
    let max = usize::MAX.to_string();
    let over = format!("{}0", usize::MAX);
    let next = (usize::MAX as u128 + 1).to_string();
    let cases = [
        "1", "10", "007", "+5", "+", "", "-", "-1", "++1", "1+", " 1", "1 ", "1_000", "0x10", "12a",
        "000", "+0", "4294967296", "\u{663}", max.as_str(), over.as_str(), next.as_str(),
    ];
    for case in cases {
        let expected = match case.parse::<usize>() {
            Ok(n) if n > 0 => Ok(n),
            _ => Err(case.to_string()),
        };
        assert_eq!(parse_positive_int(case), expected, "{:?}", case);
    }
    assert_eq!(parse_positive_int("+5"), Ok(5));
    assert_eq!(parse_positive_int("007"), Ok(7));
    assert_eq!(parse_positive_int(&max), Ok(usize::MAX));
    assert_eq!(parse_positive_int(&next), Err(next.clone()));
}

#[test]
fn first_lines_of_a_text() {
    let text = "one\ntwo\nthree\nfour";
    assert_eq!(first_lines(text, 0), "");
    assert_eq!(first_lines(text, 1), "one\n");
    assert_eq!(first_lines(text, 3), "one\ntwo\nthree\n");
    assert_eq!(first_lines(text, 4), text);
    assert_eq!(first_lines(text, 10), text);
    assert_eq!(first_lines("", 10), "");
    assert_eq!(first_lines("\n\nx", 2), "\n\n");
}

#[test]
fn first_bytes_of_a_source() {
    assert_eq!(first_bytes(b"hello", 0), b"");
    assert_eq!(first_bytes(b"hello", 2), b"he");
    assert_eq!(first_bytes(b"hello", 5), b"hello");
    assert_eq!(first_bytes(b"hello", 9), b"hello");
}

#[test]
fn show_bytes_replaces_broken_characters() {
    assert_eq!(show_bytes(b"hello", 4), "hell");
    assert_eq!(show_bytes("h\u{e9}llo".as_bytes(), 3), "h\u{e9}");
    assert_eq!(show_bytes("h\u{e9}llo".as_bytes(), 2), "h\u{fffd}");
    assert_eq!(show_bytes(&[0xff, b'a'], 2), "\u{fffd}a");
}

#[test]
fn banner_between_sources() {
    assert_eq!(format_banner(1, 0, "a.txt"), None);
    assert_eq!(format_banner(0, 0, "a.txt"), None);
    assert_eq!(format_banner(2, 0, "a.txt"), Some("===> a.txt <==".to_string()));
    assert_eq!(format_banner(2, 1, "b.txt"), Some("\n===> b.txt <==".to_string()));
}
