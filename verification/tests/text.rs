use lineutils::cat::{number_line, show_lines, Config, Numbering};
use lineutils::echo::echo;
use lineutils::fmt::{decimal_len, digit, push_decimal, push_right_aligned};
use lineutils::lines::{join_lines, split_lines};
use lineutils::source::{is_stdin, resolve, Source};
use lineutils::text::{chars_of, same_line, trimmed_len};

fn lines(items: &[&str]) -> Vec<String> {
    items.iter().map(|s| s.to_string()).collect()
}

#[test]
fn split_keeps_terminators() {
    assert_eq!(split_lines(""), Vec::<String>::new());
    assert_eq!(split_lines("a"), lines(&["a"]));
    assert_eq!(split_lines("a\n"), lines(&["a\n"]));
    assert_eq!(split_lines("a\r\nb\n\nc"), lines(&["a\r\n", "b\n", "\n", "c"]));
    assert_eq!(split_lines("\n"), lines(&["\n"]));
}

#[test]
fn join_undoes_split() {
    for text in ["", "a", "a\n", "a\nb", "\n\n\n", "x\r\ny\r\n", "h\u{e9}\nw\u{f6}"] {
        let parts = split_lines(text);
        assert_eq!(join_lines(&parts), text);
        assert_eq!(split_lines(&join_lines(&parts)), parts);
    }
    assert_eq!(join_lines(&lines(&["ab", "cd\n", "e"])), "abcd\ne");
}

#[test]
fn trimmed_comparison() {
    assert!(same_line("a\n", "a"));
    assert!(same_line("a \t\r\n", "a\n"));
    assert!(same_line("", " \n"));
    assert!(same_line("a\u{a0}", "a"));
    assert!(!same_line(" a", "a"));
    assert!(!same_line("a b", "a  b"));
    assert!(!same_line("a", "b"));
    assert!(!same_line("ab", "a"));
    assert_eq!(trimmed_len(&chars_of("ab  \n")), 2);
    assert_eq!(trimmed_len(&chars_of("  ")), 0);
    assert_eq!(trimmed_len(&chars_of(" a b")), 4);
    assert_eq!(chars_of("h\u{e9}!"), vec!['h', '\u{e9}', '!']);
}

#[test]
fn decimal_numerals() {
    for value in [0u64, 1, 9, 10, 11, 99, 100, 101, 12345, 1 << 32, u64::MAX - 1, u64::MAX] {
        let mut s = String::from(">");
        push_decimal(&mut s, value);
        assert_eq!(s, format!(">{}", value));
        assert_eq!(decimal_len(value), value.to_string().len());
        for width in [0usize, 1, 4, 6, 8, 20, 25] {
            let mut s = String::from("|");
            push_right_aligned(&mut s, value, width);
            assert_eq!(s, format!("|{:>width$}", value, width = width));
        }
    }
    assert_eq!(digit(0), '0');
    assert_eq!(digit(5), '5');
    assert_eq!(digit(9), '9');
}

#[test]
fn source_tokens() {
    assert!(is_stdin("-"));
    assert!(!is_stdin(""));
    assert!(!is_stdin("--"));
    assert!(!is_stdin("a"));
    assert_eq!(resolve("-"), Source::Stdin);
    assert_eq!(resolve("notes.txt"), Source::File("notes.txt".to_string()));
    assert_eq!(resolve("./-"), Source::File("./-".to_string()));
}

#[test]
fn echo_words() {
    assert_eq!(echo(&lines(&["Hello,", "world!"]), false), "Hello, world!\n");
    assert_eq!(echo(&lines(&["Hello,", "world!"]), true), "Hello, world!");
    assert_eq!(echo(&lines(&["one"]), false), "one\n");
    assert_eq!(echo(&lines(&[]), false), "\n");
    assert_eq!(echo(&lines(&[]), true), "");
    assert_eq!(echo(&lines(&["a", "", "b"]), true), "a  b");
}

fn cat_config(number_lines: bool, number_nonblank_lines: bool) -> Config {
    Config { files: vec!["-".to_string()], number_lines, number_nonblank_lines }
}

#[test]
fn cat_plain() {
    let input = lines(&["a", "", "b"]);
    assert_eq!(show_lines(&cat_config(false, false), &input), input);
}

#[test]
fn cat_numbers_every_line() {
    let input = lines(&["a", "", "b"]);
    assert_eq!(
        show_lines(&cat_config(true, false), &input),
        lines(&["     1\ta", "     2\t", "     3\tb"])
    );
    assert_eq!(
        show_lines(&cat_config(true, true), &input),
        lines(&["     1\ta", "     2\t", "     3\tb"])
    );
}

#[test]
fn cat_numbers_filled_lines() {
    let input = lines(&["a", "", "b", "", "", "c"]);
    assert_eq!(
        show_lines(&cat_config(false, true), &input),
        lines(&["     1\ta", "     2\tb", "     3\tc"])
    );
}

#[test]
fn cat_line_by_line() {
    let config = cat_config(false, true);
    let mut state = Numbering::new();
    assert_eq!(state, Numbering { seen: 0, filled: 0 });
    assert_eq!(state.next(&config, "x"), Some("     1\tx".to_string()));
    assert_eq!(state.next(&config, ""), None);
    assert_eq!(state.next(&config, "y"), Some("     2\ty".to_string()));
    assert_eq!(state, Numbering { seen: 3, filled: 2 });
    assert_eq!(number_line(1234567, "wide"), "1234567\twide");
}
