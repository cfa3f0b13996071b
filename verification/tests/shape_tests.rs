use lyrics_shape::{
    estimate_line_words, estimate_words_if_needed, Duration, LyricsLine, LyricsWord, Voice,
};

#[test]
fn estimates_words_for_plain_synced_line() {
    let text = "Hold to the time that you know";
    let start = Duration::from_secs(10);
    let next = Duration::from_secs(14);
    let words =
        estimate_line_words(text, start, Some(next), Some(next)).expect("should produce words");

    assert_eq!(words.len(), 7);
    let joined: String = words.iter().map(|w| w.text.as_str()).collect();
    assert_eq!(joined, text);

    for (i, word) in words.iter().enumerate() {
        assert!(word.start >= start);
        assert!(word.end >= word.start);
        if i + 1 < words.len() {
            assert!(words[i + 1].start >= word.start);
        }
    }
    assert!(words.last().unwrap().end <= next);
}

#[test]
fn preserves_existing_word_timings() {
    let existing = LyricsWord {
        start: Duration::from_secs(2),
        end: Duration::from_secs(3),
        text: "Hello".to_owned(),
    };
    let lines = vec![LyricsLine {
        start: Duration::from_secs(2),
        end: Some(Duration::from_secs(5)),
        text: "Hello world".to_owned(),
        romanized: None,
        words: Some(vec![existing.clone()]),
        secondary: Vec::new(),
        voice: Voice::Lead,
    }];

    let result = estimate_words_if_needed(&lines);
    assert_eq!(result[0].words.as_ref().unwrap().len(), 1);
    assert_eq!(result[0].words.as_ref().unwrap()[0], existing);
}
