use hotkeyhub::models::Keybind;
use hotkeyhub::parsers::sxhkd::{expand_braces, expand_group, parse_sxhkd};
use hotkeyhub::pattern::Captured;

fn lines(text: &str) -> Vec<String> {
    text.lines().map(|l| l.to_string()).collect()
}

fn parse(text: &str) -> Vec<Keybind> {
    parse_sxhkd(&lines(text))
}

#[test]
fn two_brace_groups_expand_in_order() {
    assert_eq!(expand_braces("{a,b}{1,2}"), vec!["a1", "a2", "b1", "b2"]);
}

#[test]
fn text_without_braces_expands_to_itself() {
    assert_eq!(expand_braces("super + q"), vec!["super + q"]);
    assert_eq!(expand_braces(""), vec![""]);
}

#[test]
fn expansion_leaves_no_brace_group() {
    for out in expand_braces("x{a,b{1,2}}y{c,d}") {
        assert_eq!(expand_braces(&out), vec![out.clone()]);
    }
}

#[test]
fn inner_group_is_expanded_before_the_outer_one() {
    assert_eq!(expand_braces("{a,b{1,2}}"), vec!["a", "b1", "a", "b2"]);
}

#[test]
fn alternatives_are_trimmed() {
    assert_eq!(expand_braces("x{ a , b }y"), vec!["xay", "xby"]);
}

#[test]
fn placeholder_alternative_is_left_out() {
    assert_eq!(expand_braces("super + {_,shift + }q"), vec!["super + shift +q"]);
    assert_eq!(expand_braces("{_}"), Vec::<String>::new());
}

#[test]
fn empty_braces_are_no_group() {
    assert_eq!(expand_braces("a{}b"), vec!["a{}b"]);
}

#[test]
fn unbalanced_brace_is_kept() {
    assert_eq!(expand_braces("a{b"), vec!["a{b"]);
    assert_eq!(expand_braces("{{a,b}"), vec!["{a", "{b"]);
}

#[test]
fn group_variants_are_spliced_between_before_and_after() {
    let found = Captured {
        before: "run ".to_string(),
        groups: vec![Some("{x, _ ,y}".to_string()), Some("x, _ ,y".to_string())],
        after: " now".to_string(),
    };
    assert_eq!(expand_group(&found), Some(vec!["run x now".to_string(), "run y now".to_string()]));
}

#[test]
fn match_without_interior_group_gives_no_variants() {
    let found = Captured {
        before: String::new(),
        groups: vec![Some("{a}".to_string())],
        after: String::new(),
    };
    assert_eq!(expand_group(&found), None);
    let found = Captured {
        before: String::new(),
        groups: vec![Some("{a}".to_string()), None],
        after: String::new(),
    };
    assert_eq!(expand_group(&found), None);
}

#[test]
fn placeholder_modifier_is_not_emitted() {
    let binds = parse("super + {_,shift} + q\n    bspc node -c\n");
    assert_eq!(binds.len(), 1);
    assert_eq!(binds[0].mods, vec!["super", "shift"]);
    assert_eq!(binds[0].key, "q");
    assert_eq!(binds[0].command, "bspc node -c");
    let binds = parse("super + _ + + q\n    bspc node -c\n");
    assert_eq!(binds.len(), 1);
    assert_eq!(binds[0].mods, vec!["super"]);
}

#[test]
fn single_command_is_shared_by_all_triggers() {
    let binds = parse("super + {a,b,c}\n    notify-send hello\n");
    assert_eq!(binds.len(), 3);
    assert_eq!(binds[0].key, "a");
    assert_eq!(binds[1].key, "b");
    assert_eq!(binds[2].key, "c");
    for b in &binds {
        assert_eq!(b.mods, vec!["super"]);
        assert_eq!(b.command, "notify-send hello");
    }
}

#[test]
fn commands_pair_with_triggers_by_position() {
    let binds = parse("super + {h,j,k}\n    bspc node -f {west,south}\n");
    assert_eq!(binds.len(), 3);
    assert_eq!(binds[0].command, "bspc node -f west");
    assert_eq!(binds[1].command, "bspc node -f south");
    assert_eq!(binds[2].command, "bspc node -f west");
}

#[test]
fn commands_beyond_the_last_trigger_are_dropped() {
    let binds = parse("super + {a,b}\n    run {1,2,3}\n");
    assert_eq!(binds.len(), 2);
    assert_eq!(binds[0].command, "run 1");
    assert_eq!(binds[1].command, "run 2");
}

#[test]
fn command_without_alternatives_gives_no_binding() {
    assert_eq!(parse("super + a\n    {_}\n").len(), 0);
}

#[test]
fn description_belongs_to_the_next_block_only() {
    let binds = parse(
        "# Description: Close the window \nsuper + q\n    bspc node -c\n\nsuper + w\n    bspc node -k\n",
    );
    assert_eq!(binds.len(), 2);
    assert_eq!(binds[0].description, Some("Close the window".to_string()));
    assert_eq!(binds[1].description, None);
}

#[test]
fn description_is_shared_by_the_expansions_of_its_block() {
    let binds = parse("# Description: focus\nsuper + {h,l}\n    bspc node -f {west,east}\n");
    assert_eq!(binds.len(), 2);
    assert_eq!(binds[0].description, Some("focus".to_string()));
    assert_eq!(binds[1].description, Some("focus".to_string()));
}

#[test]
fn description_as_last_line_gives_nothing() {
    assert_eq!(parse("# Description: lonely").len(), 0);
}

#[test]
fn description_before_a_comment_is_dropped() {
    let binds = parse("# Description: lost\n# note\nsuper + a\n    cmd\n");
    assert_eq!(binds.len(), 1);
    assert_eq!(binds[0].description, None);
}

#[test]
fn trigger_continues_over_a_trailing_backslash() {
    let binds = parse("super + \\\n   shift + a\n    cmd\n");
    assert_eq!(binds.len(), 1);
    assert_eq!(binds[0].mods, vec!["super", "shift"]);
    assert_eq!(binds[0].key, "a");
    assert_eq!(binds[0].command, "cmd");
}

#[test]
fn command_lines_are_joined_by_one_space() {
    let binds = parse("super + a\n    first \\\n    second\n");
    assert_eq!(binds.len(), 1);
    assert_eq!(binds[0].command, "first second");
}

#[test]
fn empty_lines_before_the_command_are_passed_over() {
    let binds = parse("super + a\n\n\n    cmd\n");
    assert_eq!(binds.len(), 1);
    assert_eq!(binds[0].command, "cmd");
}

#[test]
fn first_command_line_need_not_be_indented() {
    let binds = parse("super + a\ncmd\nsuper + b\n    other\n");
    assert_eq!(binds.len(), 2);
    assert_eq!(binds[0].key, "a");
    assert_eq!(binds[0].command, "cmd");
    assert_eq!(binds[1].key, "b");
    assert_eq!(binds[1].command, "other");
}

#[test]
fn comment_right_after_the_trigger_discards_it() {
    assert_eq!(parse("super + a\n# note\n    cmd\n").len(), 0);
}

#[test]
fn interpreter_line_counts_as_command() {
    let binds = parse("super + a\n    #!/bin/sh\n");
    assert_eq!(binds.len(), 1);
    assert_eq!(binds[0].command, "#!/bin/sh");
}

#[test]
fn trigger_without_command_is_discarded() {
    assert_eq!(parse("super + a\n").len(), 0);
    assert_eq!(parse("").len(), 0);
}

#[test]
fn blank_key_gives_no_binding() {
    assert_eq!(parse("super + \n    cmd\n").len(), 0);
    assert_eq!(parse("super + _\n    cmd\n").len(), 0);
    assert_eq!(parse("super + {a,_}\n    cmd\n").len(), 1);
}

#[test]
fn key_alone_has_no_modifiers() {
    let binds = parse("XF86AudioMute\n    pamixer -t\n");
    assert_eq!(binds.len(), 1);
    assert_eq!(binds[0].mods, Vec::<String>::new());
    assert_eq!(binds[0].key, "XF86AudioMute");
}

#[test]
fn blocks_come_out_in_line_order() {
    let binds = parse("super + {a,b}\n    one\n\nalt + c\n    two\n");
    let keys: Vec<&str> = binds.iter().map(|b| b.key.as_str()).collect();
    assert_eq!(keys, vec!["a", "b", "c"]);
}

#[test]
fn sample_continuation_configuration_is_read() {
    let binds = parse(
        "#\n# wm independent hotkeys\n#\n\n# Description: Terminal\nsuper + Return\n\tkitty\n\n# program launcher\nsuper + @space\n\trofi -show drun\n\n# Description: Focus or send to the given desktop\nsuper + {_,shift + }{1-3,0}\n\tbspc {desktop -f,node -d} '^{1-3,10}'\n\nXF86Audio{RaiseVolume,LowerVolume}\n\tpamixer -{i,d} 5 ; \\\n\tnotify-send volume\n",
    );
    let shown: Vec<(String, &str, &str)> =
        binds.iter().map(|b| (b.mods.join("+"), b.key.as_str(), b.command.as_str())).collect();
    assert_eq!(
        shown,
        vec![
            ("super".to_string(), "Return", "kitty"),
            ("super".to_string(), "@space", "rofi -show drun"),
            ("super+shift".to_string(), "1-3", "bspc desktop -f '^1-3'"),
            ("super+shift".to_string(), "0", "bspc desktop -f '^10'"),
            ("".to_string(), "XF86AudioRaiseVolume", "pamixer -i 5 ; notify-send volume"),
            ("".to_string(), "XF86AudioLowerVolume", "pamixer -d 5 ; notify-send volume"),
        ]
    );
    assert_eq!(binds[0].description.as_deref(), Some("Terminal"));
    assert_eq!(binds[1].description, None);
    assert_eq!(binds[2].description.as_deref(), Some("Focus or send to the given desktop"));
    assert_eq!(binds[3].description.as_deref(), Some("Focus or send to the given desktop"));
    assert_eq!(binds[4].description, None);
}

#[test]
fn every_choice_of_alternatives_occurs_once() {
    assert_eq!(
        expand_braces("a{1, 2,3}b{x,y}c"),
        vec!["a1bxc", "a1byc", "a2bxc", "a2byc", "a3bxc", "a3byc"]
    );
    assert_eq!(expand_braces("{a}{b}{c}"), vec!["abc"]);
    assert_eq!(expand_braces("{a,_,b}{_,c}"), vec!["ac", "bc"]);
    assert_eq!(expand_braces("{a,b}{_}").len(), 0);
}
