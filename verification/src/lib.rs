//! Converts a recorded Game Boy input movie into a sample-accurate
//! input-timing script for a playback device.
//!
//! The pipeline: the movie archive yields an input log and sync settings;
//! the log decodes to an ordered sequence of input states; a step driver
//! feeds them to an emulation engine one logical frame at a time while a
//! recorder captures every (sample index, input) query the engine makes;
//! finally the timing converter coalesces the record into a minimal list
//! of timed input-change events in the output clock domain.

pub mod bk2;
pub mod convert;
pub mod driver;
pub mod input;
pub mod recorder;
pub mod screen;

pub use input::Button;
pub use input::Input;
