//! Core logic of a portable serial terminal: byte/text codecs, the console model,
//! configuration persistence and the procedural application icon.
pub mod icon;
pub mod text;
pub mod codec;
pub mod config;
pub mod console;
pub mod worker;
