use gig::text::{contains_text, join, lines, starts_with, trim, trim_end};

#[test]
fn lines_follow_str_lines() {
    for s in ["", "a", "a\n", "a\r\nb", "\n\n", "x\r", "a\rb\n", "one\ntwo\r\n\nthree"] {
        let expected: Vec<String> = s.lines().map(|l| l.to_string()).collect();
        assert_eq!(lines(s), expected, "input {:?}", s);
    }
}

#[test]
fn trims_follow_str_trims() {
    for s in ["", "  a ", "\t\nb\r\n", "\u{3000}c\u{85}", "d", "   "] {
        assert_eq!(trim(s), s.trim());
        assert_eq!(trim_end(s), s.trim_end());
    }
}

#[test]
fn prefix_and_substring() {
    assert!(starts_with("commit", "com"));
    assert!(starts_with("commit", ""));
    assert!(!starts_with("co", "com"));
    assert!(contains_text("abc", "bc"));
    assert!(contains_text("abc", ""));
    assert!(!contains_text("abc", "cb"));
}

#[test]
fn join_with_separator() {
    let parts = vec!["a".to_string(), "".to_string(), "c".to_string()];
    assert_eq!(join(&parts, ", "), "a, , c");
    assert_eq!(join(&Vec::new(), ","), "");
}
