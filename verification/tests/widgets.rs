use hotkeyhub::ui::widgets::get_modifier_display;

#[test]
fn super_is_marked() {
    for name in ["SUPER", "super", "Win", "logo", "mod4"] {
        assert_eq!(get_modifier_display(name), ("⌘", true));
    }
}

#[test]
fn common_names_are_looked_up_in_any_case() {
    assert_eq!(get_modifier_display("ctrl"), ("Ctrl", false));
    assert_eq!(get_modifier_display("Control"), ("Ctrl", false));
    assert_eq!(get_modifier_display("mod1"), ("Alt", false));
    assert_eq!(get_modifier_display("Escape"), ("Esc", false));
    assert_eq!(get_modifier_display("period"), (".", false));
    assert_eq!(get_modifier_display("left"), ("←", false));
    assert_eq!(get_modifier_display("mouse_down"), ("⇩ Scroll", false));
}

#[test]
fn codes_buttons_and_media_keys_are_taken_as_written() {
    assert_eq!(get_modifier_display("code:60"), (".", false));
    assert_eq!(get_modifier_display("code:61"), ("code:61", false));
    assert_eq!(get_modifier_display("mouse:272"), ("● LMB", false));
    assert_eq!(get_modifier_display("mouse:274"), ("mouse:274", false));
    assert_eq!(get_modifier_display("button4"), ("⇧ Scroll", false));
    assert_eq!(get_modifier_display("button9"), ("button9", false));
    assert_eq!(get_modifier_display("XF86AudioMute"), ("♬ Mute", false));
    assert_eq!(get_modifier_display("xf86audiomute"), ("xf86audiomute", false));
    assert_eq!(get_modifier_display("XF86Launch1"), ("XF86Launch1", false));
}

#[test]
fn unknown_name_is_shown_as_written() {
    assert_eq!(get_modifier_display("q"), ("q", false));
    assert_eq!(get_modifier_display(""), ("", false));
    assert_eq!(get_modifier_display("Caps_Lock").1, false);
    assert_ne!(get_modifier_display("Caps_Lock").0, "Caps_Lock");
}
