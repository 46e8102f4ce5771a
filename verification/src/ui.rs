//! What the user interface shows.

pub mod tab_builder;
pub mod widgets;
