//! Verified core of the subx fansub toolkit: subtitle parsing, timing,
//! cleaning, conversion and translation helpers.
pub mod commands;
pub mod common;
pub mod media;
pub mod num;
pub mod pattern;
pub mod text;
pub mod time;
pub mod translate;
pub mod subs;
