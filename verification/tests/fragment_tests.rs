use lyrics_shape::fragments::is_breakable_cjk;
use lyrics_shape::plain_lyrics_fragments;

fn frags(s: &str) -> Vec<String> {
    plain_lyrics_fragments(s)
}

#[test]
fn splits_on_spaces_keeping_them() {
    assert_eq!(frags("Hello world"), vec!["Hello ", "world"]);
    assert_eq!(frags("a  b"), vec!["a  ", "b"]);
}

#[test]
fn leading_whitespace_forms_its_own_fragment() {
    assert_eq!(frags("  a b"), vec!["  ", "a ", "b"]);
}

#[test]
fn empty_line_has_no_fragments() {
    assert!(frags("").is_empty());
}

#[test]
fn whitespace_only_line_is_one_fragment() {
    assert_eq!(frags("   "), vec!["   "]);
}

#[test]
fn tabs_and_newlines_count_as_spacing() {
    assert_eq!(frags("a\tb\nc"), vec!["a\t", "b\n", "c"]);
}

#[test]
fn cjk_characters_break_apart() {
    assert_eq!(frags("私は猫"), vec!["私", "は", "猫"]);
}

#[test]
fn closing_punctuation_stays_with_its_word() {
    assert_eq!(frags("猫。犬"), vec!["猫。", "犬"]);
    assert_eq!(frags("「猫」"), vec!["「猫」"]);
}

#[test]
fn latin_runs_do_not_break_between_letters() {
    assert_eq!(frags("abc"), vec!["abc"]);
}

#[test]
fn fragments_rejoin_to_the_line() {
    for line in ["Hold to the time that you know", "  lead  and trail  ", "混ぜた text と 日本語。", "x"] {
        let joined: String = frags(line).concat();
        assert_eq!(joined, line);
        assert!(frags(line).iter().all(|f| !f.is_empty()));
    }
}

#[test]
fn breakable_cjk_pairs() {
    assert!(is_breakable_cjk('私', 'は'));
    assert!(!is_breakable_cjk('猫', '。'));
    assert!(!is_breakable_cjk('「', '猫'));
    assert!(!is_breakable_cjk('a', '猫'));
    assert!(!is_breakable_cjk('猫', 'a'));
    assert!(is_breakable_cjk('한', '국'));
}

#[test]
fn unicode_spaces_count_as_spacing() {
    assert_eq!(frags("a\u{00A0}b\u{2003}c\u{3000}d"), vec!["a\u{00A0}", "b\u{2003}", "c\u{3000}", "d"]);
    assert_eq!(frags("a\u{200B}b"), vec!["a\u{200B}b"]);
    for c in ['\u{0085}', '\u{1680}', '\u{2028}', '\u{2029}', '\u{202F}', '\u{205F}'] {
        assert!(c.is_whitespace());
        assert_eq!(frags(&format!("x{}y", c)), vec![format!("x{}", c), "y".to_owned()]);
    }
}
