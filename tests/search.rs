use minigrep::{
    decimal_text, find_bytes, find_match, highlight_with, locate_span, render_match,
    split_lines, Config, GrepError, Located, Match,
};

const SAMPLE: &str = "Hello world\ngoodbye\nHELLO again";

fn config(pattern: &str, insensitive: bool) -> Config {
    Config::build("sample.txt".to_string(), pattern.to_string(), insensitive)
}

fn args(items: &[&str]) -> Vec<String> {
    items.iter().map(|s| s.to_string()).collect()
}

fn is_red_or_plain(span: &str, painted: &str) -> bool {
    painted == span || painted == format!("\x1b[31m{}\x1b[0m", span)
}

#[test]
fn case_sensitive_scenario() {
    let ms = find_match(&config("Hello", false), SAMPLE).unwrap();
    assert_eq!(ms.len(), 1);
    assert_eq!(ms[0].line, 0);
    assert_eq!(ms[0].start, 0);
    assert_eq!(ms[0].end, 5);
    assert_eq!(ms[0].content, "Hello world");
    assert_eq!(ms[0].pattern, "Hello");
}

#[test]
fn case_insensitive_scenario() {
    let ms = find_match(&config("hello", true), SAMPLE).unwrap();
    assert_eq!(ms.len(), 2);
    assert_eq!((ms[0].line, ms[0].start, ms[0].end), (0, 0, 5));
    assert_eq!((ms[1].line, ms[1].start, ms[1].end), (2, 0, 5));
    assert_eq!(ms[1].content, "HELLO again");
}

#[test]
fn no_occurrence_gives_no_match() {
    let ms = find_match(&config("absent", false), SAMPLE).unwrap();
    assert!(ms.is_empty());
}

#[test]
fn insensitive_keeps_original_casing() {
    let ms = find_match(&config("WoRlD", true), "a\nHello WORLD\nb").unwrap();
    assert_eq!(ms.len(), 1);
    assert_eq!(ms[0].line, 1);
    assert_eq!(ms[0].content, "Hello WORLD");
    assert_eq!((ms[0].start, ms[0].end), (6, 11));
    let h = &ms[0].highlight_content;
    assert!(h.starts_with("Hello ") && is_red_or_plain("WORLD", &h["Hello ".len()..]));
}

#[test]
fn sensitive_other_casing_gives_no_match() {
    let ms = find_match(&config("hello", false), "HELLO there\nHeLlO").unwrap();
    assert!(ms.is_empty());
}

#[test]
fn empty_pattern_matches_every_line_at_zero() {
    let ms = find_match(&config("", false), "one\n\nthree").unwrap();
    assert_eq!(ms.len(), 3);
    for (i, m) in ms.iter().enumerate() {
        assert_eq!((m.line, m.start, m.end), (i, 0, 0));
    }
}

#[test]
fn matches_are_in_ascending_line_order() {
    let ms = find_match(&config("a", false), "a\nb\nba\nc\naa").unwrap();
    let lines: Vec<usize> = ms.iter().map(|m| m.line).collect();
    assert_eq!(lines, vec![0, 2, 4]);
    assert_eq!(ms[1].start, 1);
}

#[test]
fn span_has_pattern_length_and_lies_in_line() {
    let ms = find_match(&config("éa", false), "xéab\néa").unwrap();
    assert_eq!(ms.len(), 2);
    for m in &ms {
        assert_eq!(m.end - m.start, "éa".len());
        assert!(m.start <= m.end && m.end <= m.content.len());
    }
    assert_eq!((ms[0].start, ms[0].end), (1, 4));
}

#[test]
fn first_occurrence_only() {
    let ms = find_match(&config("ab", false), "xxabab").unwrap();
    assert_eq!(ms.len(), 1);
    assert_eq!((ms[0].start, ms[0].end), (2, 4));
}

#[test]
fn highlight_wraps_the_span() {
    let ms = find_match(&config("world", false), "Hello world!").unwrap();
    let h = &ms[0].highlight_content;
    assert!(h == "Hello world!" || h == "Hello \x1b[31mworld\x1b[0m!");
}

#[test]
fn misaligned_span_is_an_error() {
    let r = find_match(&config("x", true), "ok\n\u{130}x");
    assert_eq!(r.unwrap_err(), GrepError::Misaligned { line: 1 });
}

#[test]
fn lowercasing_is_applied_to_the_pattern() {
    let c = config("HeLLo", true);
    assert_eq!(c.pattern, "hello");
    assert!(c.insensitive);
    let c = config("HeLLo", false);
    assert_eq!(c.pattern, "HeLLo");
}

#[test]
fn myparse_missing_pattern_is_usage_error() {
    let r = Config::myparse(&args(&["minigrep", "file.txt"]));
    assert_eq!(r.unwrap_err(), GrepError::Usage { supplied: 1 });
}

#[test]
fn myparse_no_arguments_is_usage_error() {
    let r = Config::myparse(&args(&[]));
    assert_eq!(r.unwrap_err(), GrepError::Usage { supplied: 0 });
}

#[test]
fn myparse_positional_form() {
    let c = Config::myparse(&args(&["minigrep", "poem.txt", "Body"])).unwrap();
    assert_eq!(c.filename, "poem.txt");
    assert_eq!(c.pattern, "Body");
    assert!(!c.insensitive);
}

#[test]
fn myparse_insensitive_flag_in_any_casing() {
    let c = Config::myparse(&args(&["minigrep", "poem.txt", "BoDy", "--INSENSITIVE"])).unwrap();
    assert!(c.insensitive);
    assert_eq!(c.pattern, "body");
    let c = Config::myparse(&args(&["minigrep", "poem.txt", "BoDy", "-i"])).unwrap();
    assert!(c.insensitive);
}

#[test]
fn myparse_other_fourth_argument_is_ignored() {
    let c = Config::myparse(&args(&["minigrep", "poem.txt", "BoDy", "extra"])).unwrap();
    assert!(!c.insensitive);
    assert_eq!(c.pattern, "BoDy");
}

#[test]
fn split_lines_endings() {
    assert_eq!(split_lines("a\r\nb\n"), vec!["a", "b"]);
    assert_eq!(split_lines(""), Vec::<&str>::new());
    assert_eq!(split_lines("\n"), vec![""]);
    assert_eq!(split_lines("a\n\nb"), vec!["a", "", "b"]);
    assert_eq!(split_lines("a\rb\r"), vec!["a\rb\r"]);
    assert_eq!(split_lines("é\nü"), vec!["é", "ü"]);
}

#[test]
fn last_line_without_newline_is_scanned() {
    let ms = find_match(&config("end", false), "start\nthe end").unwrap();
    assert_eq!(ms.len(), 1);
    assert_eq!(ms[0].line, 1);
}

#[test]
fn pattern_longer_than_line_does_not_match() {
    let ms = find_match(&config("longer", false), "long\nlonger").unwrap();
    assert_eq!(ms.len(), 1);
    assert_eq!(ms[0].line, 1);
}

#[test]
fn find_bytes_leftmost() {
    assert_eq!(find_bytes(b"abcabc", b"ca"), Some(2));
    assert_eq!(find_bytes(b"abc", b""), Some(0));
    assert_eq!(find_bytes(b"ab", b"abc"), None);
    assert_eq!(find_bytes(b"abc", b"d"), None);
}

#[test]
fn locate_span_outcomes() {
    assert_eq!(locate_span("Hello", "hello", "ll"), Located::At { start: 2, end: 4 });
    assert_eq!(locate_span("Hello", "hello", "xy"), Located::Miss);
    assert_eq!(locate_span("\u{130}x", "i\u{307}x", "x"), Located::Misaligned);
}

#[test]
fn highlight_with_replaces_span() {
    assert_eq!(highlight_with("Hello world", 6, 11, "<world>"), "Hello <world>");
    assert_eq!(highlight_with("abc", 0, 0, "|"), "|abc");
}

#[test]
fn decimal_text_values() {
    assert_eq!(decimal_text(0), "0");
    assert_eq!(decimal_text(7), "7");
    assert_eq!(decimal_text(10), "10");
    assert_eq!(decimal_text(1234567890), "1234567890");
}

#[test]
fn render_counts_from_one() {
    let m = Match {
        start: 0,
        end: 5,
        line: 0,
        pattern: "Hello".to_string(),
        content: "Hello world".to_string(),
        highlight_content: "Hello world".to_string(),
    };
    assert_eq!(render_match("poem.txt", &m), "poem.txt:1:1-6: Hello world");
    let m = Match { line: 11, start: 3, end: 9, ..m };
    assert_eq!(render_match("a", &m), "a:12:4-10: Hello world");
}
