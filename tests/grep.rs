use regex::{Regex, RegexBuilder};
use textcut::grep::{find_lines, select_lines, split_lines};

#[test]
fn test_find_lines() {
    let text = "Lorem\nIpsum\r\nDOLOR";

    // "or" matches Lorem
    let rel = Regex::new("or").unwrap();
    let matches = find_lines(text, &rel, false);
    assert_eq!(matches.len(), 1);

    // inverted, everything but Lorem
    let matches = find_lines(text, &rel, true);
    assert_eq!(matches.len(), 2);

    // case-insensitive
    let re2 = RegexBuilder::new("or")
        .case_insensitive(true)
        .build()
        .unwrap();

    // Lorem and DOLOR
    let matches = find_lines(text, &re2, false);
    assert_eq!(matches.len(), 2);

    // inverted, everything but Lorem and DOLOR
    let matches = find_lines(text, &re2, true);
    assert_eq!(matches.len(), 1);
}

#[test]
fn find_lines_keeps_line_endings() {
    let rel = Regex::new("or").unwrap();
    assert_eq!(find_lines("Lorem\nIpsum\r\nDOLOR", &rel, false), vec!["Lorem\n"]);
    assert_eq!(
        find_lines("Lorem\nIpsum\r\nDOLOR", &rel, true),
        vec!["Ipsum\r\n", "DOLOR"]
    );
}

#[test]
fn split_lines_like_a_line_reader() {
    assert_eq!(split_lines(""), Vec::<String>::new());
    assert_eq!(split_lines("a"), vec!["a"]);
    assert_eq!(split_lines("a\n"), vec!["a\n"]);
    assert_eq!(split_lines("a\n\nb"), vec!["a\n", "\n", "b"]);
}

#[test]
fn select_lines_by_flags() {
    let lines = vec!["x\n".to_string(), "y\n".to_string(), "z".to_string()];
    let matched = vec![true, false, true];
    assert_eq!(select_lines(&lines, &matched, false), vec!["x\n", "z"]);
    assert_eq!(select_lines(&lines, &matched, true), vec!["y\n"]);
}
