//! A small compiler for an HTML-like markup dialect with `include` macros
//! written as `<!--?include link="file.html"-->`.
pub mod util;
pub mod text;
pub mod parse;
pub mod source;
pub mod custom;
pub mod config;
