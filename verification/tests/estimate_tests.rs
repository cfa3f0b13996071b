use lyrics_shape::{
    estimate_line_words, estimate_words_if_needed, Duration, LyricsLane, LyricsLine, LyricsWord,
    Voice,
};

fn ms(n: u64) -> Duration {
    Duration::from_millis(n)
}

#[test]
fn shares_singing_time_by_weight() {
    // Seven one-syllable words: 2640 ms estimated, 4 s available, so the
    // singing time is 4 s less a 280 ms pause; each word weighs 4 half units
    // and the last 7, so each of the first six words takes 480 ms.
    let start = Duration::from_secs(10);
    let next = Duration::from_secs(14);
    let words = estimate_line_words("Hold to the time that you know", start, Some(next), Some(next))
        .expect("words");
    let starts: Vec<u64> = words.iter().map(|w| w.start.as_nanos() as u64 / 1_000_000).collect();
    assert_eq!(starts, vec![10_000, 10_480, 10_960, 11_440, 11_920, 12_400, 12_880]);
    assert_eq!(words.last().unwrap().end, ms(13_720));
    for pair in words.windows(2) {
        assert_eq!(pair[0].end, pair[1].start);
    }
}

#[test]
fn blank_lines_get_no_words() {
    assert!(estimate_line_words("", ms(0), None, None).is_none());
    assert!(estimate_line_words("   ", ms(0), None, None).is_none());
}

#[test]
fn without_end_or_next_line_four_seconds_are_available() {
    // One syllable: 720 ms estimated, 4 s available, 280 ms pause.
    let words = estimate_line_words("hey", ms(1_000), None, None).unwrap();
    assert_eq!(words.len(), 1);
    assert_eq!(words[0].start, ms(1_000));
    assert_eq!(words[0].end, ms(1_000 + 3_720));
}

#[test]
fn short_lines_keep_at_least_400_ms() {
    // 100 ms available is less than the estimate and less than 400 ms.
    let words = estimate_line_words("hey", ms(0), Some(ms(100)), None).unwrap();
    assert_eq!(words[0].end, ms(400));
}

#[test]
fn long_lines_stretch_the_estimate_by_a_quarter() {
    // 720 ms estimated, 20 s available: 900 ms sung.
    let words = estimate_line_words("hey", ms(0), Some(ms(20_000)), None).unwrap();
    assert_eq!(words[0].end, ms(900));
}

#[test]
fn earlier_of_end_and_next_start_bounds_the_line() {
    let words = estimate_line_words("one two", ms(0), Some(ms(10_000)), Some(ms(2_000))).unwrap();
    // 2 s available, 1040 ms estimated: 2000 - 160 = 1840 ms sung.
    assert_eq!(words.last().unwrap().end, ms(1_840));
}

#[test]
fn punctuation_adds_a_pause_to_the_word() {
    // "wait," weighs 4 + 2 and "now" 4 + 3: the first takes 6/13 of the
    // 3720 ms, rounded to the nearest nanosecond.
    let words = estimate_line_words("wait, now", ms(0), None, None).unwrap();
    assert_eq!(words.last().unwrap().end, ms(3_720));
    assert_eq!(words[1].start.as_nanos(), 1_716_923_077);
}

#[test]
fn words_keep_the_line_text() {
    let text = "  Lead  and trail ";
    let words = estimate_line_words(text, ms(0), None, None).unwrap();
    let joined: String = words.iter().map(|w| w.text.as_str()).collect();
    assert_eq!(joined, text);
}

fn line(start: u64, end: Option<u64>, text: &str, words: Option<Vec<LyricsWord>>) -> LyricsLine {
    LyricsLine {
        start: ms(start),
        end: end.map(ms),
        text: text.to_owned(),
        romanized: Some("roman".to_owned()),
        words,
        secondary: Vec::new(),
        voice: Voice::Background,
    }
}

#[test]
fn fills_lines_without_words_using_next_start() {
    let lines = vec![line(0, None, "hey there", Some(Vec::new())), line(3_000, None, "bye", None)];
    let prepared = estimate_words_if_needed(&lines);
    assert_eq!(prepared.len(), 2);
    let first = prepared[0].words.as_ref().unwrap();
    let expected = estimate_line_words("hey there", ms(0), None, Some(ms(3_000))).unwrap();
    assert_eq!(first, &expected);
    let second = prepared[1].words.as_ref().unwrap();
    assert_eq!(second, &estimate_line_words("bye", ms(3_000), None, None).unwrap());
    assert_eq!(prepared[0].romanized.as_deref(), Some("roman"));
    assert_eq!(prepared[0].voice, Voice::Background);
    assert_eq!(prepared[0].text, "hey there");
}

#[test]
fn blank_line_without_words_stays_without() {
    let lines = vec![line(0, None, "   ", Some(Vec::new()))];
    let prepared = estimate_words_if_needed(&lines);
    assert!(prepared[0].words.is_none());
}

#[test]
fn lanes_fall_back_to_the_line_end() {
    let mut l = line(0, Some(5_000), "main", None);
    l.secondary.push(LyricsLane { start: ms(1_000), end: None, text: "echo".to_owned(), words: None });
    let timed = LyricsWord { start: ms(2_000), end: ms(2_500), text: "kept".to_owned() };
    l.secondary.push(LyricsLane {
        start: ms(2_000),
        end: None,
        text: "kept".to_owned(),
        words: Some(vec![timed.clone()]),
    });
    let prepared = estimate_words_if_needed(&[l]);
    let lanes = &prepared[0].secondary;
    assert_eq!(lanes.len(), 2);
    assert_eq!(
        lanes[0].words.as_ref().unwrap(),
        &estimate_line_words("echo", ms(1_000), Some(ms(5_000)), None).unwrap()
    );
    assert_eq!(lanes[1].words.as_ref().unwrap(), &vec![timed]);
    assert_eq!(lanes[0].end, None);
}

#[test]
fn the_pause_is_rounded_to_the_nearest_nanosecond() {
    // 1 s + 7 ns available, one syllable (720 ms estimated): the pause is 8%
    // of the time, 80_000_000.56 ns, rounded to 80_000_001 ns.
    let words = estimate_line_words("hey", ms(0), Some(Duration::from_nanos(1_000_000_007)), None).unwrap();
    assert_eq!(words[0].end.as_nanos(), 920_000_006);
}

#[test]
fn preparing_twice_changes_nothing() {
    let mut l = line(0, Some(5_000), "main line here", None);
    l.secondary.push(LyricsLane { start: ms(1_000), end: None, text: "echo".to_owned(), words: None });
    let lines = vec![
        l,
        line(6_000, None, "   ", Some(Vec::new())),
        line(7_000, None, "last words", None),
    ];
    let once = estimate_words_if_needed(&lines);
    let twice = estimate_words_if_needed(&once);
    assert_eq!(twice, once);
    assert!(once[0].words.is_some());
    assert!(once[0].secondary[0].words.is_some());
    assert!(once[1].words.is_none());
}
