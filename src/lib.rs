//! Click-track patterns: a compact notation for rhythmic patterns, its parser,
//! and a sequencer that tiles a parsed pattern into timed note events.

pub mod pattern;
pub mod sequencer;
pub mod render;
