use lineutils::wc::{
    count, count_text, format_field, format_row, format_total, total, Config, ReadError, FileInfo,
};

fn config(n_files: usize, lines: bool, words: bool, bytes: bool, chars: bool) -> Config {
    let mut files = Vec::new();
    for i in 0..n_files {
        files.push(format!("f{}", i));
    }
    Config { files, lines, words, bytes, chars }
}

fn info(num_lines: usize, num_words: usize, num_bytes: usize, num_chars: usize) -> FileInfo {
    FileInfo { num_lines, num_words, num_bytes, num_chars }
}

#[test]
fn test_count() {
    let text = "I don't want the world. I just want your hafl.\r\n";
    let info = count(text.as_bytes());
    assert!(info.is_ok());
    let expected = FileInfo {
        num_lines: 1,
        num_words: 10,
        num_chars: 48,
        num_bytes: 48,
    };
    assert_eq!(info.unwrap(), expected);
}

#[test]
fn test_format_field() {
    assert_eq!(format_field(1, false), "");
    assert_eq!(format_field(3, true), "       3");
    assert_eq!(format_field(10, true), "      10");
}

#[test]
fn count_half_the_world() {
    let text = "I don't want the world. I just want your half.\r\n";
    let got = count(text.as_bytes()).unwrap();
    assert_eq!(got, info(1, 10, text.len(), text.len()));
}

#[test]
fn count_empty_source() {
    assert_eq!(count(b""), Ok(info(0, 0, 0, 0)));
    assert_eq!(count_text(""), info(0, 0, 0, 0));
    assert_eq!(FileInfo::zero(), info(0, 0, 0, 0));
}

#[test]
fn count_last_line_without_terminator() {
    assert_eq!(count(b"one\ntwo\nthree"), Ok(info(3, 3, 13, 13)));
    assert_eq!(count(b"one\ntwo\nthree\n"), Ok(info(3, 3, 14, 14)));
    assert_eq!(count(b"\n\n"), Ok(info(2, 0, 2, 2)));
    assert_eq!(count(b"x"), Ok(info(1, 1, 1, 1)));
}

#[test]
fn count_words_between_white_space() {
    assert_eq!(count_text("  a  b\tc \n").num_words, 3);
    assert_eq!(count_text("   \t \n").num_words, 0);
    assert_eq!(count_text("a\u{a0}b\u{3000}c").num_words, 3);
    assert_eq!(count_text("ab\ncd").num_words, 2);
}

#[test]
fn count_bytes_and_chars_differ() {
    let text = "h\u{e9}llo w\u{f6}rld \u{1f600}\n";
    let got = count(text.as_bytes()).unwrap();
    assert_eq!(got, info(1, 3, 19, 14));
    assert_eq!(count_text(text), got);
}

#[test]
fn count_refuses_invalid_utf8() {
    assert_eq!(count(&[b'a', 0xff, b'\n']), Err(ReadError::InvalidUtf8));
    assert_eq!(count(&[0xc3]), Err(ReadError::InvalidUtf8));
    assert_eq!(count(&[0xc3, 0xa9]), Ok(info(1, 1, 2, 1)));
}

#[test]
fn counts_grow_with_the_text() {
    let text = "a b\nc  d e\n\nf";
    let mut last = info(0, 0, 0, 0);
    for (i, _) in text.char_indices() {
        let now = count_text(&text[..i]);
        assert!(last.num_lines <= now.num_lines);
        assert!(last.num_words <= now.num_words);
        assert!(last.num_bytes <= now.num_bytes);
        assert!(last.num_chars <= now.num_chars);
        last = now;
    }
    assert_eq!(count_text(text), info(4, 6, 13, 13));
}

#[test]
fn format_field_wide_value() {
    assert_eq!(format_field(0, true), "       0");
    assert_eq!(format_field(12345678, true), "12345678");
    assert_eq!(format_field(123456789, true), "123456789");
    assert_eq!(format_field(usize::MAX, true), format!("{:>8}", usize::MAX));
    assert_eq!(format_field(usize::MAX, false), "");
}

#[test]
fn format_field_right_aligns() {
    for value in [0usize, 7, 42, 999, 1234567, 99999999, 100000000] {
        let shown = format_field(value, true);
        let digits = value.to_string();
        assert!(shown.len() >= 8);
        assert!(shown.ends_with(&digits));
        assert!(shown[..shown.len() - digits.len()].chars().all(|c| c == ' '));
        assert_eq!(shown, format!("{:>8}", value));
    }
}

#[test]
fn row_of_a_file() {
    let all = config(1, true, true, true, true);
    assert_eq!(
        format_row(&info(1, 9, 48, 48), &all, "fox.txt"),
        "       1       9      48      48 fox.txt"
    );
    let some = config(1, true, false, true, false);
    assert_eq!(format_row(&info(1, 9, 48, 48), &some, "fox.txt"), "       1      48 fox.txt");
    let none = config(1, false, false, false, false);
    assert_eq!(format_row(&info(1, 9, 48, 48), &none, "fox.txt"), " fox.txt");
}

#[test]
fn row_of_standard_input() {
    let all = config(1, true, true, true, true);
    assert_eq!(format_row(&info(1, 9, 48, 48), &all, "-"), "       1       9      48      48");
    assert_eq!(format_row(&info(1, 9, 48, 48), &all, "--"), "       1       9      48      48 --");
    assert_eq!(format_row(&info(1, 9, 48, 48), &all, ""), "       1       9      48      48 ");
}

#[test]
fn totals_of_two_sources() {
    let a = info(3, 5, 20, 20);
    let b = info(1, 2, 8, 8);
    assert_eq!(a.plus(&b), Some(info(4, 7, 28, 28)));
    assert_eq!(total(&vec![a, b]), Some(info(4, 7, 28, 28)));
    let two = config(2, true, true, true, true);
    assert_eq!(
        format_total(&info(4, 7, 28, 28), &two),
        Some("       4       7      28      28 total".to_string())
    );
}

#[test]
fn totals_row_only_for_several_sources() {
    let t = info(4, 7, 28, 28);
    assert_eq!(format_total(&t, &config(0, true, true, true, true)), None);
    assert_eq!(format_total(&t, &config(1, true, true, true, true)), None);
    assert_eq!(
        format_total(&t, &config(3, false, true, false, false)),
        Some("       7 total".to_string())
    );
}

#[test]
fn totals_that_do_not_fit() {
    let big = info(usize::MAX, 0, 0, 0);
    let one = info(1, 1, 1, 1);
    assert_eq!(big.plus(&one), None);
    assert_eq!(one.plus(&info(0, 0, usize::MAX, 0)), None);
    assert_eq!(total(&vec![one, big, one]), None);
    assert_eq!(total(&vec![]), Some(info(0, 0, 0, 0)));
    assert_eq!(total(&vec![big]), Some(big));
}

#[test]
fn default_configuration() {
    let c = Config::default();
    assert_eq!(c.files, vec!["-".to_string()]);
    assert!(c.lines && c.words && c.bytes && c.chars);
    assert_eq!(format_row(&info(1, 2, 3, 3), &c, &c.files[0]), "       1       2       3       3");
    assert_eq!(format_total(&info(1, 2, 3, 3), &c), None);
}
