//! Media metadata as reported by `ffprobe`.
pub mod probe;
