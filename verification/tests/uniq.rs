use lineutils::uniq::{dedup, render, uniq, Config, Run, RunState};

fn lines(items: &[&str]) -> Vec<String> {
    items.iter().map(|s| s.to_string()).collect()
}

#[test]
fn dedup_without_counts() {
    assert_eq!(dedup(&lines(&["a\n", "a\n", "b\n"]), false), lines(&["a\n", "b\n"]));
}

#[test]
fn dedup_with_counts() {
    assert_eq!(dedup(&lines(&["a\n", "a\n", "b\n"]), true), lines(&["   2 a\n", "   1 b\n"]));
}

#[test]
fn dedup_empty_source() {
    assert_eq!(dedup(&Vec::new(), false), Vec::<String>::new());
    assert_eq!(dedup(&Vec::new(), true), Vec::<String>::new());
    assert_eq!(uniq("", false), "");
    assert_eq!(uniq("", true), "");
}

#[test]
fn dedup_flushes_last_run() {
    assert_eq!(dedup(&lines(&["a\n"]), true), lines(&["   1 a\n"]));
    assert_eq!(dedup(&lines(&["a\n", "b\n", "b\n", "b\n"]), true), lines(&["   1 a\n", "   3 b\n"]));
    assert_eq!(dedup(&lines(&["a\n", "b\n", "a\n"]), true), lines(&["   1 a\n", "   1 b\n", "   1 a\n"]));
}

#[test]
fn dedup_ignores_trailing_white_space() {
    assert_eq!(dedup(&lines(&["a\n", "a"]), true), lines(&["   2 a\n"]));
    assert_eq!(dedup(&lines(&["a \r\n", "a\n", "a\t"]), true), lines(&["   3 a \r\n"]));
    assert_eq!(dedup(&lines(&[" a\n", "a\n"]), false), lines(&[" a\n", "a\n"]));
    assert_eq!(dedup(&lines(&["\n", "  \n", "\n"]), true), lines(&["   3 \n"]));
}

#[test]
fn dedup_wide_count() {
    let many = vec!["x\n".to_string(); 12345];
    assert_eq!(dedup(&many, true), lines(&["12345 x\n"]));
    assert_eq!(dedup(&many, false), lines(&["x\n"]));
}

#[test]
fn dedup_is_idempotent() {
    let input = lines(&["a\n", "a\n", "b\n", "b \n", "a\n", "\n", "\n", "c", "c\n"]);
    let once = dedup(&input, false);
    assert_eq!(once, lines(&["a\n", "b\n", "a\n", "\n", "c"]));
    assert_eq!(dedup(&once, false), once);
    let text = "a\na\nb\nb \na\n\n\nc\nc";
    let out = uniq(text, false);
    assert_eq!(out, "a\nb\na\n\nc\n");
    assert_eq!(uniq(&out, false), out);
}

#[test]
fn uniq_whole_text() {
    assert_eq!(uniq("a\na\nb\n", false), "a\nb\n");
    assert_eq!(uniq("a\na\nb\n", true), "   2 a\n   1 b\n");
    assert_eq!(uniq("a\na", true), "   2 a\n");
    assert_eq!(uniq("a\nb", true), "   1 a\n   1 b");
}

#[test]
fn render_row() {
    let run = Run { text: "two\n".to_string(), count: 2 };
    assert_eq!(render(&run, true), "   2 two\n");
    assert_eq!(render(&run, false), "two\n");
    let wide = Run { text: "w".to_string(), count: 123456 };
    assert_eq!(render(&wide, true), "123456 w");
}

#[test]
fn run_state_step_by_step() {
    let mut state = RunState::new();
    assert_eq!(state.pending(), 0);
    assert_eq!(state.feed("a\n"), None);
    assert_eq!(state.pending(), 1);
    assert_eq!(state.feed("a  \n"), None);
    assert_eq!(state.pending(), 2);
    assert_eq!(state.feed("b\n"), Some(Run { text: "a\n".to_string(), count: 2 }));
    assert_eq!(state.pending(), 1);
    assert_eq!(state.finish(), Some(Run { text: "b\n".to_string(), count: 1 }));
    assert_eq!(RunState::new().finish(), None);
}

#[test]
fn config_output_target() {
    let c = Config::new("in".to_string(), None, false);
    assert_eq!(c.in_file, "in");
    assert_eq!(c.out_file, None);
    assert!(!c.count);
    let c = Config::new("in".to_string(), Some("-".to_string()), true);
    assert_eq!(c.out_file, None);
    assert!(c.count);
    let c = Config::new("-".to_string(), Some("out.txt".to_string()), true);
    assert_eq!(c.in_file, "-");
    assert_eq!(c.out_file, Some("out.txt".to_string()));
}
