//! A terminal visual novel engine: stories written in a plain text format
//! are parsed into scenes, checked for structural errors, and played by
//! choosing among each scene's options.

pub mod text;
pub mod color;
pub mod story;
pub mod check;
pub mod play;
pub mod screen;
pub mod cli;
