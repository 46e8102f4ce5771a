//! The two configuration dialects.

pub mod hyprland;
pub mod sxhkd;
