//! Turns a plain-text narration transcript and a target spoken duration into
//! a timed subtitle document in the SRT format.
//!
//! An abbreviation table may be supplied so that abbreviations written in the
//! transcript (such as "UN") are timed as if the narrator spoke their full
//! form ("United Nations") while the rendered subtitle still shows the
//! abbreviation.  The pipeline substitutes a synthetic single-word
//! placeholder for each abbreviation, segments the text into sentences,
//! splits each sentence into word-count-bounded chunks, allocates each chunk
//! a share of the requested duration proportional to its spoken length, and
//! renders the numbered, time-coded SRT blocks.

pub mod placeholder;
pub mod srt;
pub mod strutil;
pub mod subtitle;
pub mod unicode;
