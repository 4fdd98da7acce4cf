use textcut::cat::number_lines;
use textcut::uniq::{group_lines, same_trimmed};
use textcut::wc::FileInfo;

fn owned(v: &[&str]) -> Vec<String> {
    v.iter().map(|s| s.to_string()).collect()
}

#[test]
fn groups_adjacent_equal_lines() {
    let lines = owned(&["a\n", "a\n", "b\n", "a\n", "a  \n", "c"]);
    assert_eq!(
        group_lines(&lines),
        vec![
            (2, "a\n".to_string()),
            (1, "b\n".to_string()),
            (2, "a\n".to_string()),
            (1, "c".to_string()),
        ]
    );
    assert_eq!(group_lines(&Vec::new()), Vec::<(usize, String)>::new());
}

#[test]
fn leading_blank_lines_join_the_empty_run() {
    let lines = owned(&["\n", "\n", "x\n"]);
    assert_eq!(
        group_lines(&lines),
        vec![(2, "".to_string()), (1, "x\n".to_string())]
    );
}

#[test]
fn trimmed_comparison() {
    assert!(same_trimmed("a \n", "a"));
    assert!(same_trimmed("", " \t\r\n"));
    assert!(!same_trimmed(" a", "a"));
    assert!(!same_trimmed("ab", "a"));
}

#[test]
fn numbering_modes() {
    let lines = owned(&["a", "", "b"]);
    assert_eq!(number_lines(&lines, true, false), vec![Some(1), Some(2), Some(3)]);
    assert_eq!(number_lines(&lines, false, true), vec![Some(1), None, Some(2)]);
    assert_eq!(number_lines(&lines, true, true), vec![Some(1), None, Some(2)]);
    assert_eq!(number_lines(&lines, false, false), vec![None, None, None]);
}

#[test]
fn totals_add_up() {
    let a = FileInfo { num_lines: 1, num_words: 2, num_bytes: 3, num_chars: 4 };
    let b = FileInfo { num_lines: 10, num_words: 20, num_bytes: 30, num_chars: 40 };
    assert_eq!(
        a.checked_add(&b),
        Some(FileInfo { num_lines: 11, num_words: 22, num_bytes: 33, num_chars: 44 })
    );
    let big = FileInfo { num_lines: usize::MAX, num_words: 0, num_bytes: 0, num_chars: 0 };
    assert_eq!(big.checked_add(&a), None);
}
