//! Conversion of SubRip (`.srt`) subtitle text into LRC lyric lines.
//!
//! The library is a single linear pipeline: a path is split into its
//! name, extension and directory parts; the extension is gated on `srt`;
//! the subtitle text is walked line by line, every fourth line (the
//! second of each block) is parsed as a timing line, and each timing
//! line is paired with the line that follows it to form one LRC output
//! line `[minutes:seconds.00] text`.
//!
//! All text is handled as bytes, so the library is independent of the
//! platform's string handling; callers convert from and to `String` at
//! the edge.

pub mod convert;
pub mod laws;
pub mod path;
pub mod text;
