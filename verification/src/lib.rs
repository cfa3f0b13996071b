//! Word-level timing for synced lyrics: splitting lines into word fragments,
//! estimating per-word timestamps, and conforming a word-timed sheet to a guide.

pub mod align;
pub mod conform;
pub mod estimate;
pub mod fill;
pub mod fragments;
pub mod model;
pub mod syllables;
pub mod text;
pub mod time;
pub mod timing;
pub mod tokens;

pub use estimate::{estimate_line_words, estimate_words_if_needed};
pub use fragments::plain_lyrics_fragments;
pub use model::{Lyrics, LyricsLane, LyricsLine, LyricsWord, Voice};
pub use time::Duration;
