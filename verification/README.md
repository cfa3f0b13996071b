# lyrics_shape

Word-level timing for synced lyrics, with machine-checked proofs of its contracts.

- `fragments`: splitting a plain line into word fragments (spaces and CJK breaks).
- `syllables`: estimating syllables by vowel groups.
- `estimate`: estimating word timestamps for lines that have none, and filling a whole sheet.
- `tokens`: lowercase word keys of a text, with where each starts.
- `align`: pairing two key sequences along a longest common subsequence of akin words.
- `timing`: where each key of a word-timed sheet is sung.
- `fill`: hints from the guide's own timing and filling of unpaired spans.
- `conform`: conforming a word-timed sheet to a guide sheet.
- `model`, `time`, `text`: the sheet types, durations in nanoseconds, and character helpers.

Durations are whole nanoseconds; proportional shares of a span are computed exactly
and rounded to the nearest nanosecond.
