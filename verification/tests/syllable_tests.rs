use lyrics_shape::syllables::count_syllables;

fn count(word: &str) -> usize {
    let chars: Vec<char> = word.chars().collect();
    count_syllables(&chars)
}

#[test]
fn counts_vowel_groups() {
    assert_eq!(count("hello"), 2);
    assert_eq!(count("you"), 1);
    assert_eq!(count("rhythm"), 1);
    assert_eq!(count("beautiful"), 3);
}

#[test]
fn silent_final_e_is_dropped() {
    assert_eq!(count("time"), 1);
    assert_eq!(count("little"), 2);
    assert_eq!(count("tree"), 1);
    assert_eq!(count("the"), 1);
}

#[test]
fn uppercase_is_lowered_first() {
    assert_eq!(count("HELLO"), 2);
    assert_eq!(count("TIME"), 1);
}

#[test]
fn non_letters_are_ignored() {
    assert_eq!(count("know,"), 1);
    assert_eq!(count("o-o-o"), 1);
}

#[test]
fn at_least_one_syllable() {
    assert_eq!(count(""), 1);
    assert_eq!(count("..."), 1);
    assert_eq!(count("psst"), 1);
}

#[test]
fn cyrillic_and_accented_vowels() {
    assert_eq!(count("привет"), 2);
    assert_eq!(count("été"), 2);
}
