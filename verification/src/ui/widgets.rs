//! How a key or a modifier is shown on a key cap.

use crate::text::{equal, starts_with, to_chars, upper_case};
use vstd::prelude::*;

verus! {

/// What stands for a key code: `code:60` is the full stop, any other code
/// is shown as written.
pub open spec fn code_display(name: Seq<char>) -> (Seq<char>, bool) {
    if name == "code:60"@ {
        ("."@, false)
    } else {
        (name, false)
    }
}

/// What stands for a mouse button of the directive dialect.
pub open spec fn mouse_display(name: Seq<char>) -> (Seq<char>, bool) {
    if name == "mouse:272"@ {
        ("● LMB"@, false)
    } else if name == "mouse:273"@ {
        ("● RMB"@, false)
    } else {
        (name, false)
    }
}

/// What stands for a mouse button of the continuation dialect.
pub open spec fn button_display(name: Seq<char>) -> (Seq<char>, bool) {
    if name == "button4"@ {
        ("⇧ Scroll"@, false)
    } else if name == "button5"@ {
        ("⇩ Scroll"@, false)
    } else {
        (name, false)
    }
}

/// What stands for a multimedia key, whose name is taken as written.
pub open spec fn media_display(name: Seq<char>) -> (Seq<char>, bool) {
    if name == "XF86AudioRaiseVolume"@ {
        ("♫ Vol+"@, false)
    } else if name == "XF86AudioLowerVolume"@ {
        ("♫ Vol-"@, false)
    } else if name == "XF86AudioMute"@ {
        ("♬ Mute"@, false)
    } else if name == "XF86AudioMicMute"@ {
        (" Mute"@, false)
    } else if name == "XF86AudioPlay"@ {
        ("▶ Play"@, false)
    } else if name == "XF86AudioPause"@ {
        ("⏸ Pause"@, false)
    } else if name == "XF86AudioNext"@ {
        ("󰒭 Next"@, false)
    } else if name == "XF86AudioPrev"@ {
        ("󰒮 Prev"@, false)
    } else if name == "XF86AudioStop"@ {
        ("■ Stop"@, false)
    } else if name == "XF86MonBrightnessUp"@ {
        ("☀ Bri+"@, false)
    } else if name == "XF86MonBrightnessDown"@ {
        ("☼ Bri-"@, false)
    } else {
        (name, false)
    }
}

/// What stands for any other key or modifier: its name is looked up in
/// upper case, and a name that is not known is shown as written.
pub open spec fn named_display(name: Seq<char>) -> (Seq<char>, bool) {
    let upper = upper_case(name);
    if upper == "UP"@ {
        ("↑"@, false)
    } else if upper == "DOWN"@ {
        ("↓"@, false)
    } else if upper == "LEFT"@ {
        ("←"@, false)
    } else if upper == "RIGHT"@ {
        ("→"@, false)
    } else if upper == "SUPER"@ || upper == "WIN"@ || upper == "LOGO"@ || upper == "MOD4"@ {
        ("⌘"@, true)
    } else if upper == "CTRL"@ || upper == "CONTROL"@ {
        ("Ctrl"@, false)
    } else if upper == "ALT"@ || upper == "MOD1"@ {
        ("Alt"@, false)
    } else if upper == "SHIFT"@ {
        ("󰘶 Shift"@, false)
    } else if upper == "ENTER"@ || upper == "RETURN"@ {
        ("󰌑"@, false)
    } else if upper == "SPACE"@ {
        ("󱁐"@, false)
    } else if upper == "TAB"@ {
        ("󰌥"@, false)
    } else if upper == "ESC"@ || upper == "ESCAPE"@ {
        ("Esc"@, false)
    } else if upper == "BS"@ || upper == "BACKSPACE"@ {
        ("󰁮 "@, false)
    } else if upper == "DEL"@ || upper == "DELETE"@ {
        ("󰧧 Del"@, false)
    } else if upper == "PERIOD"@ {
        ("."@, false)
    } else if upper == "CAPS"@ || upper == "CAPS_LOCK"@ {
        ("󰌎 CapsLock"@, false)
    } else if upper == "MOUSE_DOWN"@ {
        ("⇩ Scroll"@, false)
    } else if upper == "MOUSE_UP"@ {
        ("⇧ Scroll"@, false)
    } else {
        (name, false)
    }
}

/// The text that stands for a key or a modifier on its key cap, and whether
/// it is the Super modifier.
pub open spec fn display_of(name: Seq<char>) -> (Seq<char>, bool) {
    if "code:"@.is_prefix_of(name) {
        code_display(name)
    } else if "mouse:"@.is_prefix_of(name) {
        mouse_display(name)
    } else if "button"@.is_prefix_of(name) {
        button_display(name)
    } else if "XF86"@.is_prefix_of(name) {
        media_display(name)
    } else {
        named_display(name)
    }
}

fn show_code<'a>(mod_name: &'a str) -> (out: (&'a str, bool))
    ensures
        (out.0@, out.1) == code_display(mod_name@),
{
    if equal(mod_name, "code:60") {
        (".", false)
    } else {
        (mod_name, false)
    }
}

fn show_mouse<'a>(mod_name: &'a str) -> (out: (&'a str, bool))
    ensures
        (out.0@, out.1) == mouse_display(mod_name@),
{
    if equal(mod_name, "mouse:272") {
        ("● LMB", false)
    } else if equal(mod_name, "mouse:273") {
        ("● RMB", false)
    } else {
        (mod_name, false)
    }
}

fn show_button<'a>(mod_name: &'a str) -> (out: (&'a str, bool))
    ensures
        (out.0@, out.1) == button_display(mod_name@),
{
    if equal(mod_name, "button4") {
        ("⇧ Scroll", false)
    } else if equal(mod_name, "button5") {
        ("⇩ Scroll", false)
    } else {
        (mod_name, false)
    }
}

fn show_media<'a>(mod_name: &'a str) -> (out: (&'a str, bool))
    ensures
        (out.0@, out.1) == media_display(mod_name@),
{
    if equal(mod_name, "XF86AudioRaiseVolume") {
        ("♫ Vol+", false)
    } else if equal(mod_name, "XF86AudioLowerVolume") {
        ("♫ Vol-", false)
    } else if equal(mod_name, "XF86AudioMute") {
        ("♬ Mute", false)
    } else if equal(mod_name, "XF86AudioMicMute") {
        (" Mute", false)
    } else if equal(mod_name, "XF86AudioPlay") {
        ("▶ Play", false)
    } else if equal(mod_name, "XF86AudioPause") {
        ("⏸ Pause", false)
    } else if equal(mod_name, "XF86AudioNext") {
        ("󰒭 Next", false)
    } else if equal(mod_name, "XF86AudioPrev") {
        ("󰒮 Prev", false)
    } else if equal(mod_name, "XF86AudioStop") {
        ("■ Stop", false)
    } else if equal(mod_name, "XF86MonBrightnessUp") {
        ("☀ Bri+", false)
    } else if equal(mod_name, "XF86MonBrightnessDown") {
        ("☼ Bri-", false)
    } else {
        (mod_name, false)
    }
}

fn show_named<'a>(mod_name: &'a str) -> (out: (&'a str, bool))
    ensures
        (out.0@, out.1) == named_display(mod_name@),
{
    let upper_name = mod_name.to_uppercase();
    let upper = upper_name.as_str();
    if equal(upper, "UP") {
        ("↑", false)
    } else if equal(upper, "DOWN") {
        ("↓", false)
    } else if equal(upper, "LEFT") {
        ("←", false)
    } else if equal(upper, "RIGHT") {
        ("→", false)
    } else if equal(upper, "SUPER") || equal(upper, "WIN") || equal(upper, "LOGO") || equal(upper, "MOD4") {
        ("⌘", true)
    } else if equal(upper, "CTRL") || equal(upper, "CONTROL") {
        ("Ctrl", false)
    } else if equal(upper, "ALT") || equal(upper, "MOD1") {
        ("Alt", false)
    } else if equal(upper, "SHIFT") {
        ("󰘶 Shift", false)
    } else if equal(upper, "ENTER") || equal(upper, "RETURN") {
        ("󰌑", false)
    } else if equal(upper, "SPACE") {
        ("󱁐", false)
    } else if equal(upper, "TAB") {
        ("󰌥", false)
    } else if equal(upper, "ESC") || equal(upper, "ESCAPE") {
        ("Esc", false)
    } else if equal(upper, "BS") || equal(upper, "BACKSPACE") {
        ("󰁮 ", false)
    } else if equal(upper, "DEL") || equal(upper, "DELETE") {
        ("󰧧 Del", false)
    } else if equal(upper, "PERIOD") {
        (".", false)
    } else if equal(upper, "CAPS") || equal(upper, "CAPS_LOCK") {
        ("󰌎 CapsLock", false)
    } else if equal(upper, "MOUSE_DOWN") {
        ("⇩ Scroll", false)
    } else if equal(upper, "MOUSE_UP") {
        ("⇧ Scroll", false)
    } else {
        (mod_name, false)
    }
}

/// The text that stands for a key or a modifier on its key cap, and whether
/// it is the Super modifier, which is shown in its own colours.
pub fn get_modifier_display<'a>(mod_name: &'a str) -> (out: (&'a str, bool))
    ensures
        (out.0@, out.1) == display_of(mod_name@),
{
    let name = to_chars(mod_name);
    if starts_with(&name, &to_chars("code:")) {
        show_code(mod_name)
    } else if starts_with(&name, &to_chars("mouse:")) {
        show_mouse(mod_name)
    } else if starts_with(&name, &to_chars("button")) {
        show_button(mod_name)
    } else if starts_with(&name, &to_chars("XF86")) {
        show_media(mod_name)
    } else {
        show_named(mod_name)
    }
}

} // verus!
