//! A falling-notes piano-roll core: a standard MIDI file is parsed into a
//! flat, time-ordered list of notes (absolute start time and duration in
//! microseconds, resolved through the file's tempo map), and every frame a
//! time-windowed projection turns the visible notes into colored rectangles
//! and vertex data for a renderer, together with the growth policy for the
//! renderer's vertex buffer.
//!
//! All times are integer microseconds and all screen coordinates are integer
//! milli-pixels (one thousandth of a pixel), so that every quantity stated in
//! a contract is exact.

pub mod buffer;
pub mod loader;
pub mod note;
pub mod parser;
pub mod project;
pub mod score;
pub mod tempo;
