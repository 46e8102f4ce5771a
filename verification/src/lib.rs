//! Parsing and normalisation of window-manager keybinding configurations.
//!
//! Two configuration dialects are read into one uniform list of
//! [`models::Keybind`] records:
//!
//! - [`parsers::hyprland`], a directive dialect
//!   (`bind = MODS, KEY, dispatcher, args`) with variables and with files
//!   that source other files;
//! - [`parsers::sxhkd`], a continuation dialect (a trigger line followed by
//!   indented command lines) with brace expansion.
//!
//! Around them: [`utils`] resolves paths, [`theme`] reads colours and
//! writes the style sheet, [`cli`] reads the command line, and [`ui`] holds
//! what the user interface computes. [`text`] has the character-level
//! primitives, [`pattern`] the search with regular expressions.
//!
//! Nothing here reads a file or the environment: a caller hands in lines,
//! the environment and what it knows of the disk.

pub mod cli;
pub mod models;
pub mod parsers;
pub mod pattern;
pub mod text;
pub mod theme;
pub mod ui;
pub mod utils;
