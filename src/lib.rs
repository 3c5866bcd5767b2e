//! A small line-oriented text search: split a text into lines, find the first
//! occurrence of a pattern in each (optionally case-folded) line, and render
//! each hit with its matched span emphasised.

pub mod config;
pub mod error;
pub mod lines;
pub mod matcher;
pub mod render;
pub mod text;

pub use config::Config;
pub use error::GrepError;
pub use lines::split_lines;
pub use matcher::{find_match, highlight_with, locate_span, Located, Match};
pub use render::{decimal_text, render_match};
pub use text::find_bytes;
