//! The records that the parsers produce and the application's settings.

use vstd::prelude::*;

verus! {

/// One keybinding: the modifiers in the order in which they were declared,
/// the trigger key, the command to show, and an optional description.
#[derive(Debug, Clone)]
pub struct Keybind {
    pub mods: Vec<String>,
    pub key: String,
    pub command: String,
    pub description: Option<String>,
}

/// The mathematical view of a [`Keybind`].
pub struct KeybindView {
    pub mods: Seq<Seq<char>>,
    pub key: Seq<char>,
    pub command: Seq<char>,
    pub description: Option<Seq<char>>,
}

/// Whether `token` is empty or the placeholder `_`.
pub open spec fn is_blank_token(token: Seq<char>) -> bool {
    token.len() == 0 || token == seq!['_']
}

impl KeybindView {
    /// The invariant of an emitted record: neither the key nor any modifier
    /// is empty or the placeholder `_`.
    pub open spec fn well_formed(self) -> bool {
        &&& !is_blank_token(self.key)
        &&& forall|i: int| 0 <= i < self.mods.len() ==> !is_blank_token(#[trigger] self.mods[i])
    }
}

impl View for Keybind {
    type V = KeybindView;

    open spec fn view(&self) -> KeybindView {
        KeybindView {
            mods: self.mods@.map_values(|s: String| s@),
            key: self.key@,
            command: self.command@,
            description: crate::text::opt_text(self.description),
        }
    }
}

/// The views of a list of keybindings.
pub open spec fn keybinds(items: Seq<Keybind>) -> Seq<KeybindView> {
    items.map_values(|k: Keybind| k@)
}

/// What the application shows: every configuration that it finds, or the one
/// file named on the command line.
#[derive(Debug, Clone)]
pub enum RunMode {
    All,
    SingleHyprland(String),
    SingleSxhkd(String),
}

/// The colours of the user interface.
#[derive(Debug, Clone)]
pub struct Theme {
    pub background: String,
    pub background_alt: String,
    pub accent: String,
    pub text: String,
    pub border: String,
}

} // verus!
