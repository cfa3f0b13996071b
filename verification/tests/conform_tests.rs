use lyrics_shape::conform::conform;
use lyrics_shape::{Duration, Lyrics, LyricsLine, LyricsWord, Voice};

fn ms(n: u64) -> Duration {
    Duration::from_millis(n)
}

fn word(start: u64, end: u64, text: &str) -> LyricsWord {
    LyricsWord { start: ms(start), end: ms(end), text: text.to_owned() }
}

fn line(start: u64, end: Option<u64>, text: &str, words: Option<Vec<LyricsWord>>) -> LyricsLine {
    LyricsLine {
        start: ms(start),
        end: end.map(ms),
        text: text.to_owned(),
        romanized: None,
        words,
        secondary: Vec::new(),
        voice: Voice::Lead,
    }
}

fn worded() -> Lyrics {
    let names = ["one", "two", "three", "four", "five", "six", "seven"];
    let words: Vec<LyricsWord> = names
        .iter()
        .enumerate()
        .map(|(i, n)| word(1_000 * i as u64, 1_000 * i as u64 + 500, n))
        .collect();
    Lyrics::Synced { lines: vec![line(0, Some(7_000), "one two three four five six seven", Some(words))] }
}

#[test]
fn guide_lines_take_the_sung_timings() {
    let guide = Lyrics::Synced {
        lines: vec![
            line(0, None, "One, two three four", None),
            line(4_000, None, "five six seven", None),
        ],
    };
    let result = conform(&worded(), &guide).expect("conformed");
    let Lyrics::Synced { lines } = result else { panic!("synced") };
    assert_eq!(lines.len(), 2);
    let first = lines[0].words.as_ref().unwrap();
    let texts: Vec<&str> = first.iter().map(|w| w.text.as_str()).collect();
    assert_eq!(texts, vec!["One, ", "two ", "three ", "four"]);
    assert_eq!(first[1].start, ms(1_000));
    assert_eq!(first[1].end, ms(1_500));
    assert_eq!(lines[0].start, ms(0));
    assert_eq!(lines[0].end, Some(ms(3_500)));
    assert_eq!(lines[1].start, ms(4_000));
    assert_eq!(lines[1].end, Some(ms(6_500)));
    assert_eq!(lines[1].text, "five six seven");
}

#[test]
fn unmatched_guide_words_are_filled_between_neighbours() {
    let guide = Lyrics::Synced {
        lines: vec![
            line(0, None, "one two three four", None),
            line(4_000, None, "five hey six seven", None),
        ],
    };
    let result = conform(&worded(), &guide).expect("conformed");
    let Lyrics::Synced { lines } = result else { panic!("synced") };
    let second = lines[1].words.as_ref().unwrap();
    assert_eq!(second[1].text, "hey ");
    // Between "five" (ends 4500) and "six" (starts 5000): one even share.
    assert_eq!(second[1].start, ms(4_500));
    assert_eq!(second[1].end, ms(5_000));
}

#[test]
fn unrelated_guides_are_not_conformed() {
    let guide = Lyrics::Synced {
        lines: vec![
            line(0, None, "alpha beta gamma delta", None),
            line(4_000, None, "epsilon zeta eta", None),
        ],
    };
    assert!(conform(&worded(), &guide).is_none());
}

#[test]
fn plain_or_short_sheets_are_not_conformed() {
    let plain = Lyrics::Plain { text: "one two".to_owned() };
    assert!(conform(&worded(), &plain).is_none());
    assert!(conform(&plain, &worded()).is_none());
    let short = Lyrics::Synced { lines: vec![line(0, None, "one two", None)] };
    assert!(conform(&worded(), &short).is_none());
}

#[test]
fn a_single_conformed_line_is_not_enough() {
    let guide = Lyrics::Synced {
        lines: vec![line(0, None, "one two three four five six seven", None)],
    };
    assert!(conform(&worded(), &guide).is_none());
}

#[test]
fn nine_in_ten_guide_lines_must_hold_a_pair() {
    // Seven of eight guide keys pair, but only two of the three guide lines
    // with keys hold a pair: fewer than nine in ten.
    let guide = Lyrics::Synced {
        lines: vec![
            line(0, None, "one two three", None),
            line(3_000, None, "four five six seven", None),
            line(8_000, None, "zzz", None),
        ],
    };
    assert!(conform(&worded(), &guide).is_none());
    let anchored = Lyrics::Synced {
        lines: vec![
            line(0, None, "one two three", None),
            line(3_000, None, "four five six seven", None),
        ],
    };
    assert!(conform(&worded(), &anchored).is_some());
}
