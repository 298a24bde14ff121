//! Image sort visualizer: the verified core.
//!
//! The sorting algorithms record every comparison, swap and single-slot write
//! as an `Event`; replaying the events over the starting arrangement yields
//! exactly the sorted arrangement. The rest of the crate holds the binary
//! cache codec, the playback state machine and the integer parts of the grid
//! layout, option checks and sound scheduling.

pub mod sort;
pub mod elementary;
pub mod quick;
pub mod heap;
pub mod merge;
pub mod bytes;
pub mod cache;
pub mod text;
pub mod grid;
pub mod options;
pub mod shuffle;
pub mod sound;
pub mod animation;
