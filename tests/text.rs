use finite_automaton::text::{chars_of, same_chars, space, split_lines, split_words, trimmed};

fn v(s: &str) -> Vec<char> {
    s.chars().collect()
}

#[test]
fn lines_split_at_newlines() {
    assert_eq!(split_lines(&v("a\nbc\n\nd")), vec![v("a"), v("bc"), v(""), v("d")]);
    assert_eq!(split_lines(&v("")), vec![v("")]);
    assert_eq!(split_lines(&v("x\n")), vec![v("x"), v("")]);
}

#[test]
fn trimming_removes_outer_white_space() {
    assert_eq!(trimmed(&v(" \t a b \r")), v("a b"));
    assert_eq!(trimmed(&v("\u{3000}q\u{a0}")), v("q"));
    assert_eq!(trimmed(&v("   ")), v(""));
    assert_eq!(trimmed(&v("ab")), v("ab"));
}

#[test]
fn words_are_runs_without_white_space() {
    assert_eq!(split_words(&v("  a  bc\td ")), vec![v("a"), v("bc"), v("d")]);
    assert_eq!(split_words(&v("")), Vec::<Vec<char>>::new());
    assert_eq!(split_words(&v(" \t ")), Vec::<Vec<char>>::new());
}

#[test]
fn white_space_matches_std() {
    for c in ['\t', '\n', '\u{b}', '\u{c}', '\r', ' ', '\u{85}', '\u{a0}', '\u{1680}', '\u{2000}', '\u{200a}', '\u{2028}', '\u{2029}', '\u{202f}', '\u{205f}', '\u{3000}', 'a', '#', '\u{200b}', '\0'] {
        assert_eq!(space(c), c.is_whitespace(), "{:?}", c);
    }
}

#[test]
fn characters_and_comparison() {
    assert_eq!(chars_of("aé€"), vec!['a', 'é', '€']);
    assert!(same_chars(&v("abc"), &v("abc")));
    assert!(!same_chars(&v("abc"), &v("abd")));
    assert!(!same_chars(&v("ab"), &v("abc")));
}
