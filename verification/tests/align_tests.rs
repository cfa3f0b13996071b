use lyrics_shape::align::{akin, paired};
use lyrics_shape::tokens::tokens;

fn keys(text: &str) -> Vec<(usize, String)> {
    let chars: Vec<char> = text.chars().collect();
    tokens(&chars).into_iter().map(|s| (s.at, s.key)).collect()
}

fn strings(words: &[&str]) -> Vec<String> {
    words.iter().map(|w| w.to_string()).collect()
}

#[test]
fn keys_are_lowercased_alphanumeric_runs() {
    assert_eq!(keys("Don't STOP, now!"), vec![
        (0, "dont".to_string()),
        (6, "stop".to_string()),
        (12, "now".to_string()),
    ]);
}

#[test]
fn wide_characters_are_keys_of_their_own() {
    assert_eq!(keys("日本語ok"), vec![
        (0, "日".to_string()),
        (1, "本".to_string()),
        (2, "語".to_string()),
        (3, "ok".to_string()),
    ]);
}

#[test]
fn punctuation_only_text_has_no_keys() {
    assert!(keys("... !!").is_empty());
}

#[test]
fn akin_words() {
    let s = |x: &str| x.to_string();
    assert!(akin(&s("hello"), &s("hello")));
    assert!(akin(&s("love"), &s("loved")));
    assert!(akin(&s("loved"), &s("love")));
    assert!(!akin(&s("lov"), &s("love")));
    assert!(!akin(&s("walk"), &s("walking")));
    assert!(!akin(&s("stop"), &s("tops")));
}

#[test]
fn pairs_the_longest_common_subsequence() {
    let left = strings(&["a", "b", "c", "d", "e"]);
    let right = strings(&["b", "x", "d", "e"]);
    assert_eq!(paired(&left, &right), vec![(1, 0), (3, 2), (4, 3)]);
}

#[test]
fn pairs_akin_words() {
    let left = strings(&["dancing", "tonight", "baby"]);
    let right = strings(&["dancin", "tonight"]);
    assert_eq!(paired(&left, &right), vec![(0, 0), (1, 1)]);
}

#[test]
fn nothing_pairs_with_nothing() {
    assert!(paired(&strings(&[]), &strings(&["a"])).is_empty());
    assert!(paired(&strings(&["a"]), &strings(&["b"])).is_empty());
}

#[test]
fn akin_compares_prefixes_by_character() {
    let s = |x: &str| x.to_string();
    assert!(akin(&s("héllo"), &s("héllos")));
    assert!(!akin(&s("héllo"), &s("hállos")));
    assert!(!akin(&s("hello"), &s("help!")));
}
