//! Helpers shared by the commands: file names, language codes, settings.
pub mod config;
pub mod fs;
pub mod lang;
