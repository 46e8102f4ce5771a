use hotkeyhub::models::Keybind;
use hotkeyhub::parsers::hyprland::{
    classify, normalize_key, parse_bind, parse_hyprland_recursive, scan_lines, Directive, Disk,
    FileEntry, HyprContext, Request,
};
use hotkeyhub::pattern::Captured;

fn lines(text: &str) -> Vec<String> {
    text.lines().map(|l| l.to_string()).collect()
}

fn scan_all(text: &str) -> (Vec<Keybind>, HyprContext) {
    let mut ctx = HyprContext::new();
    let mut binds = Vec::new();
    let all = lines(text);
    let mut cursor = 0;
    loop {
        let step = scan_lines(&all, cursor, &mut ctx, &mut binds);
        cursor = step.next;
        if step.source.is_none() {
            break;
        }
    }
    (binds, ctx)
}

fn bind(content: &str) -> Option<Keybind> {
    parse_bind(content, &Vec::new())
}

fn found(groups: &[Option<&str>]) -> Option<Captured> {
    Some(Captured {
        before: String::new(),
        groups: groups.iter().map(|g| g.map(|s| s.to_string())).collect(),
        after: String::new(),
    })
}

#[test]
fn new_context_is_empty() {
    let ctx = HyprContext::new();
    assert!(ctx.variables.is_empty());
    assert!(ctx.processed_files.is_empty());
}

#[test]
fn key_is_the_trimmed_second_field() {
    let b = bind("SUPER SHIFT ,   Return  , exec, kitty").unwrap();
    assert_eq!(b.key, "Return");
    assert_eq!(b.mods, vec!["SUPER", "SHIFT"]);
    assert_eq!(b.command, "exec kitty");
    assert_eq!(b.description, None);
}

#[test]
fn modifier_that_names_the_key_is_dropped() {
    let b = bind("CAPS, Caps_Lock, exec, swaync-client -t").unwrap();
    assert_eq!(b.mods, Vec::<String>::new());
    assert_eq!(b.key, "Caps_Lock");
    let b = bind("SUPER, Super_L, exec, menu").unwrap();
    assert_eq!(b.mods, vec!["SUPER"]);
}

#[test]
fn normal_form_drops_case_underscores_lock_and_key() {
    assert_eq!(normalize_key("CAPS"), "CAPS");
    assert_eq!(normalize_key("Caps_Lock"), "CAPS");
    assert_eq!(normalize_key("key_a"), "A");
    assert_eq!(normalize_key("lo_ck"), "");
    assert_eq!(normalize_key("KLOCKEY"), "");
    assert_eq!(normalize_key("LOLOCKCK"), "LOCK");
}

#[test]
fn variable_is_substituted_in_the_modifiers() {
    let (binds, ctx) = scan_all("$mod = SUPER\nbind = $mod, Q, killactive\n");
    assert_eq!(binds.len(), 1);
    assert_eq!(binds[0].mods, vec!["SUPER"]);
    assert_eq!(binds[0].key, "Q");
    assert_eq!(binds[0].command, "killactive");
    assert_eq!(ctx.variables, vec![("mod".to_string(), "SUPER".to_string())]);
}

#[test]
fn variable_defined_later_is_not_substituted() {
    let (binds, _) = scan_all("bind = $mod, Q, killactive\n$mod = SUPER\n");
    assert_eq!(binds.len(), 1);
    assert_eq!(binds[0].mods, vec!["$mod"]);
}

#[test]
fn later_assignment_overwrites_in_place() {
    let (binds, ctx) = scan_all("$a = ALT\n$b = CTRL\n$a =  SUPER  \nbind = $a $b, X, exec, y\n");
    assert_eq!(binds[0].mods, vec!["SUPER", "CTRL"]);
    assert_eq!(
        ctx.variables,
        vec![("a".to_string(), "SUPER".to_string()), ("b".to_string(), "CTRL".to_string())]
    );
}

#[test]
fn reference_names_the_whole_run_of_name_characters() {
    let vars = vec![
        ("mod".to_string(), "SUPER".to_string()),
        ("modShift".to_string(), "ALT".to_string()),
        ("m".to_string(), "CTRL".to_string()),
    ];
    assert_eq!(parse_bind("$modShift, Q, x", &vars).unwrap().mods, vec!["ALT"]);
    assert_eq!(parse_bind("$mod, Q, x", &vars).unwrap().mods, vec!["SUPER"]);
    assert_eq!(parse_bind("$m, Q, x", &vars).unwrap().mods, vec!["CTRL"]);
    assert_eq!(parse_bind("$modX, Q, x", &vars).unwrap().mods, vec!["$modX"]);
    assert_eq!(parse_bind("$mod+$m $modShift, Q, x", &vars).unwrap().mods, vec!["SUPER", "CTRL", "ALT"]);
    assert_eq!(parse_bind("$mod$m, Q, x", &vars).unwrap().mods, vec!["SUPERCTRL"]);
    assert_eq!(parse_bind("$ mod $, Q, x", &vars).unwrap().mods, vec!["$", "mod", "$"]);
}

#[test]
fn substitution_does_not_depend_on_the_order_of_assignment() {
    let (binds, _) = scan_all("$m = ALT\n$mod = SUPER\nbind = $mod, Q, killactive\n");
    assert_eq!(binds[0].mods, vec!["SUPER"]);
    let (binds, _) = scan_all("$mod = SUPER\n$m = ALT\nbind = $mod, Q, killactive\n");
    assert_eq!(binds[0].mods, vec!["SUPER"]);
}

#[test]
fn value_put_in_is_not_read_again() {
    let (binds, _) = scan_all("$a = $b\n$b = SUPER\nbind = $a, Q, killactive\n");
    assert_eq!(binds[0].mods, vec!["$b"]);
}

#[test]
fn unbound_variable_stays_as_written() {
    let b = bind("$nothing, Q, killactive").unwrap();
    assert_eq!(b.mods, vec!["$nothing"]);
}

#[test]
fn modifiers_split_at_space_plus_and_underscore() {
    let b = bind("SUPER+SHIFT_ALT   CTRL\tMOD5, X, exec, y").unwrap();
    assert_eq!(b.mods, vec!["SUPER", "SHIFT", "ALT", "CTRL", "MOD5"]);
    let b = bind(", X, exec, y").unwrap();
    assert_eq!(b.mods, Vec::<String>::new());
}

#[test]
fn arguments_are_joined_by_comma_and_space() {
    assert_eq!(bind("SUPER, E, exec, a,b ,  c").unwrap().command, "exec a, b, c");
    assert_eq!(bind("SUPER, E, killactive").unwrap().command, "killactive");
    assert_eq!(bind("SUPER, E, killactive,").unwrap().command, "killactive");
    assert_eq!(bind("SUPER, E, exec, , x").unwrap().command, "exec , x");
}

#[test]
fn trailing_comment_is_not_part_of_the_command() {
    assert_eq!(bind("SUPER, Q, killactive # close it").unwrap().command, "killactive");
    assert!(bind("SUPER, Q # , killactive").is_none());
}

#[test]
fn fewer_than_three_fields_give_no_binding() {
    assert!(bind("SUPER, Q").is_none());
    assert!(bind("SUPER").is_none());
    assert!(bind("").is_none());
}

#[test]
fn bind_with_blank_key_gives_no_binding() {
    assert!(bind("SUPER, , exec").is_none());
    assert!(bind("SUPER, _, exec").is_none());
    assert!(bind("SUPER,  _ , exec").is_none());
    assert!(bind("SUPER, __, exec").is_some());
}

#[test]
fn bind_flavours_are_read_alike() {
    let (binds, _) = scan_all(
        "bind = SUPER, A, exec, a\nbindr=CAPS, Caps_Lock, exec, b\n  bindel = , XF86AudioMute, exec, c\nbindX = SUPER, D, exec, d\n",
    );
    assert_eq!(binds.len(), 3);
    assert_eq!(binds[0].key, "A");
    assert_eq!(binds[1].key, "Caps_Lock");
    assert_eq!(binds[1].mods, Vec::<String>::new());
    assert_eq!(binds[2].key, "XF86AudioMute");
    assert_eq!(binds[2].command, "exec c");
}

#[test]
fn comments_and_unknown_lines_are_passed_over() {
    let (binds, ctx) = scan_all("# bind = SUPER, A, exec, a\n\nmonitor = ,preferred,auto,1\n   \n");
    assert!(binds.is_empty());
    assert!(ctx.variables.is_empty());
}

#[test]
fn scan_stops_behind_a_source_directive() {
    let all = lines("bind = SUPER, A, exec, a\nsource =  ~/more.conf  \nbind = SUPER, B, exec, b\n");
    let mut ctx = HyprContext::new();
    let mut binds = Vec::new();
    let step = scan_lines(&all, 0, &mut ctx, &mut binds);
    assert_eq!(step.next, 2);
    assert_eq!(step.source, Some("~/more.conf".to_string()));
    assert_eq!(binds.len(), 1);
    let step = scan_lines(&all, step.next, &mut ctx, &mut binds);
    assert_eq!(step.next, 3);
    assert_eq!(step.source, None);
    assert_eq!(binds.len(), 2);
    assert_eq!(binds[1].key, "B");
    let step = scan_lines(&all, 7, &mut ctx, &mut binds);
    assert_eq!(step.next, 7);
    assert_eq!(step.source, None);
}

#[test]
fn assignment_comes_before_source_and_bind() {
    let d = classify(
        &found(&[Some("$a = b"), Some("a"), Some(" b ")]),
        &found(&[Some("source = x"), Some("x")]),
        &found(&[Some("bind = y"), Some("y")]),
    );
    assert!(matches!(d, Directive::Assign { ref name, ref value } if name == "a" && value == "b"));
    let d = classify(
        &None,
        &found(&[Some("source = x"), Some(" x ")]),
        &found(&[Some("bind = y"), Some("y")]),
    );
    assert!(matches!(d, Directive::Include { ref target } if target == "x"));
    let d = classify(&None, &None, &found(&[Some("bind = y "), Some("y ")]));
    assert!(matches!(d, Directive::Bind { ref content } if content == "y "));
    assert!(matches!(classify(&None, &None, &None), Directive::Skip));
    let d = classify(&found(&[Some("$a"), Some("a"), None]), &None, &None);
    assert!(matches!(d, Directive::Skip));
}

#[test]
fn file_is_entered_once() {
    let mut ctx = HyprContext::new();
    assert!(!ctx.has_entered("/a"));
    assert!(ctx.enter_file("/a"));
    assert!(ctx.has_entered("/a"));
    assert!(!ctx.enter_file("/a"));
    assert!(ctx.enter_file("/b"));
    assert!(!ctx.enter_file("/a"));
    assert_eq!(ctx.processed_files, vec!["/a", "/b"]);
}

/// A disk in memory: files by path, and wildcard patterns with what they
/// match. A pattern that is not listed matches its own path if that is a
/// file, as a path without wildcards does.
struct Tree {
    files: Vec<(&'static str, &'static str)>,
    patterns: Vec<(&'static str, Option<Vec<&'static str>>)>,
    reads: std::cell::RefCell<Vec<String>>,
}

impl Tree {
    fn new(files: &[(&'static str, &'static str)]) -> Tree {
        Tree { files: files.to_vec(), patterns: Vec::new(), reads: Default::default() }
    }

    fn answer(&self, disk: &mut Disk, request: Request) {
        match request {
            Request::File(path) => {
                self.reads.borrow_mut().push(path.clone());
                let entry = match self.files.iter().find(|(name, _)| *name == path) {
                    Some((_, "<unreadable>")) => FileEntry::Unreadable,
                    Some((_, text)) => FileEntry::Lines(lines(text)),
                    None => FileEntry::Missing,
                };
                disk.files.push((path, entry));
            }
            Request::Matches(pattern) => {
                let found = match self.patterns.iter().find(|(p, _)| *p == pattern) {
                    Some((_, found)) => {
                        found.as_ref().map(|list| list.iter().map(|m| m.to_string()).collect())
                    }
                    None if self.files.iter().any(|(name, _)| *name == pattern) => {
                        Some(vec![pattern.clone()])
                    }
                    None => Some(Vec::new()),
                };
                disk.matches.push((pattern, found));
            }
        }
    }

    fn read(&self, root: &str) -> (Vec<Keybind>, HyprContext) {
        let home = Some("/home/u".to_string());
        let env = vec![("CONF".to_string(), "/etc/hypr".to_string())];
        let mut disk = Disk::new();
        loop {
            let mut ctx = HyprContext::new();
            let mut binds = Vec::new();
            match parse_hyprland_recursive(root, &disk, &home, &env, &mut ctx, &mut binds) {
                None => return (binds, ctx),
                Some(request) => self.answer(&mut disk, request),
            }
        }
    }
}

fn keys(binds: &[Keybind]) -> Vec<&str> {
    binds.iter().map(|b| b.key.as_str()).collect()
}

#[test]
fn unknown_file_is_asked_for() {
    let disk = Disk::new();
    let mut ctx = HyprContext::new();
    let mut binds = Vec::new();
    let wanted = parse_hyprland_recursive("/a", &disk, &None, &Vec::new(), &mut ctx, &mut binds);
    assert!(matches!(wanted, Some(Request::File(ref p)) if p == "/a"));
    assert!(binds.is_empty());
    assert!(ctx.processed_files.is_empty());
}

#[test]
fn unknown_expansion_is_asked_for_with_the_resolved_target() {
    let mut disk = Disk::new();
    disk.files.push((
        "/a".to_string(),
        FileEntry::Lines(lines("bind = SUPER, A, exec, a\nsource = ~/$CONF/*.conf\nbind = SUPER, B, exec, b")),
    ));
    let home = Some("/home/u".to_string());
    let env = vec![("CONF".to_string(), "hypr".to_string())];
    let mut ctx = HyprContext::new();
    let mut binds = Vec::new();
    let wanted = parse_hyprland_recursive("/a", &disk, &home, &env, &mut ctx, &mut binds);
    assert!(matches!(wanted, Some(Request::Matches(ref p)) if p == "/home/u/hypr/*.conf"));
    assert_eq!(keys(&binds), vec!["A"]);
    disk.matches.push(("/home/u/hypr/*.conf".to_string(), Some(Vec::new())));
    let mut ctx = HyprContext::new();
    let mut binds = Vec::new();
    let wanted = parse_hyprland_recursive("/a", &disk, &home, &env, &mut ctx, &mut binds);
    assert!(wanted.is_none());
    assert_eq!(keys(&binds), vec!["A", "B"]);
    assert_eq!(ctx.processed_files, vec!["/a"]);
}

#[test]
fn missing_file_gives_nothing() {
    let (binds, ctx) = Tree::new(&[]).read("/nowhere");
    assert!(binds.is_empty());
    assert!(ctx.processed_files.is_empty());
}

#[test]
fn unreadable_file_is_entered_and_gives_nothing() {
    let tree = Tree::new(&[
        ("/a", "source = /b\nbind = SUPER, A, exec, a\n"),
        ("/b", "<unreadable>"),
    ]);
    let (binds, ctx) = tree.read("/a");
    assert_eq!(keys(&binds), vec!["A"]);
    assert_eq!(ctx.processed_files, vec!["/a", "/b"]);
}

#[test]
fn file_that_sources_itself_is_read_once() {
    let tree = Tree::new(&[(
        "/a",
        "bind = SUPER, A, exec, a\nsource = /a\nbind = SUPER, B, exec, b\n",
    )]);
    let (binds, ctx) = tree.read("/a");
    assert_eq!(keys(&binds), vec!["A", "B"]);
    assert_eq!(ctx.processed_files, vec!["/a"]);
}

#[test]
fn chain_of_sources_ends_at_the_file_already_entered() {
    let tree = Tree::new(&[
        ("/a", "$mod = SUPER\nbind = $mod, A, exec, a\nsource = /b\nbind = $mod, Z, exec, z\n"),
        ("/b", "bind = $mod, B, exec, b\nsource = /c\n$mod = ALT\n"),
        ("/c", "source = /a\nbind = $mod, C, exec, c\nsource = /missing\n"),
    ]);
    let (binds, ctx) = tree.read("/a");
    assert_eq!(keys(&binds), vec!["A", "B", "C", "Z"]);
    assert_eq!(binds[2].mods, vec!["SUPER"]);
    assert_eq!(binds[3].mods, vec!["ALT"]);
    assert_eq!(ctx.processed_files, vec!["/a", "/b", "/c"]);
    assert_eq!(*tree.reads.borrow(), vec!["/a", "/b", "/c"]);
}

#[test]
fn file_sourced_twice_is_read_once() {
    let tree = Tree::new(&[
        ("/a", "source = /b\nsource = /b\nbind = SUPER, A, exec, a\n"),
        ("/b", "bind = SUPER, B, exec, b\n"),
    ]);
    let (binds, _) = tree.read("/a");
    assert_eq!(keys(&binds), vec!["B", "A"]);
}

#[test]
fn wildcard_matches_are_read_in_the_order_found() {
    let mut tree = Tree::new(&[
        ("/a", "source = $CONF/*.conf\nbind = SUPER, A, exec, a\n"),
        ("/etc/hypr/x.conf", "bind = SUPER, X, exec, x\n"),
        ("/etc/hypr/y.conf", "bind = SUPER, Y, exec, y\nsource = /etc/hypr/x.conf\n"),
    ]);
    tree.patterns.push(("/etc/hypr/*.conf", Some(vec!["/etc/hypr/y.conf", "/etc/hypr/gone.conf", "/etc/hypr/x.conf"])));
    let (binds, ctx) = tree.read("/a");
    assert_eq!(keys(&binds), vec!["Y", "X", "A"]);
    assert_eq!(ctx.processed_files, vec!["/a", "/etc/hypr/y.conf", "/etc/hypr/x.conf"]);
}

#[test]
fn target_that_cannot_be_expanded_is_read_as_a_path() {
    let mut tree = Tree::new(&[
        ("/a", "source = /b[\nbind = SUPER, A, exec, a\n"),
        ("/b[", "bind = SUPER, B, exec, b\n"),
    ]);
    tree.patterns.push(("/b[", None));
    let (binds, _) = tree.read("/a");
    assert_eq!(keys(&binds), vec!["B", "A"]);
}

#[test]
fn variables_of_a_sourced_file_are_seen_behind_its_directive() {
    let tree = Tree::new(&[
        ("/a", "bind = $m, A, exec, a\nsource = /vars\nbind = $m, B, exec, b\n"),
        ("/vars", "$m = SUPER\n"),
    ]);
    let (binds, _) = tree.read("/a");
    assert_eq!(binds[0].mods, vec!["$m"]);
    assert_eq!(binds[1].mods, vec!["SUPER"]);
}

#[test]
fn first_entry_of_a_path_counts() {
    let mut disk = Disk::new();
    disk.files.push(("/a".to_string(), FileEntry::Lines(lines("bind = SUPER, A, exec, a"))));
    disk.files.push(("/a".to_string(), FileEntry::Missing));
    assert!(matches!(disk.file("/a"), Some(FileEntry::Lines(_))));
    assert!(disk.file("/b").is_none());
    disk.matches.push(("p".to_string(), None));
    disk.matches.push(("p".to_string(), Some(Vec::new())));
    assert!(matches!(disk.expansion("p"), Some(None)));
    assert!(disk.expansion("q").is_none());
}

#[test]
fn bindings_given_are_kept() {
    let mut disk = Disk::new();
    disk.files.push(("/a".to_string(), FileEntry::Lines(lines("bind = SUPER, A, exec, a"))));
    let mut ctx = HyprContext::new();
    assert!(ctx.enter_file("/z"));
    let mut binds = vec![bind("ALT, K, exec, k").unwrap()];
    let wanted = parse_hyprland_recursive("/a", &disk, &None, &Vec::new(), &mut ctx, &mut binds);
    assert!(wanted.is_none());
    assert_eq!(keys(&binds), vec!["K", "A"]);
    assert_eq!(ctx.processed_files, vec!["/z", "/a"]);
}

#[test]
fn sample_directive_configuration_is_read() {
    let mut tree = Tree::new(&[
        (
            "/home/u/.config/hypr/hyprland.conf",
            "# main\n$mainMod = SUPER # the key\n$terminal = kitty\nsource = ~/.config/hypr/conf.d/*.conf\n\nbind = $mainMod, Return, exec, $terminal\nbind = $mainMod SHIFT, Q, killactive,\nbindm = $mainMod, mouse:272, movewindow\nbindel = , XF86AudioRaiseVolume, exec, wpctl set-volume -l 1 @DEFAULT_AUDIO_SINK@ 5%+\nbindr = CAPS, Caps_Lock, exec, swaync-client -t -sw\n",
        ),
        ("/home/u/.config/hypr/conf.d/keys.conf", "bind = $mainMod, E, exec, nautilus --new-window\n"),
    ]);
    tree.patterns.push((
        "/home/u/.config/hypr/conf.d/*.conf",
        Some(vec!["/home/u/.config/hypr/conf.d/keys.conf"]),
    ));
    let (binds, ctx) = tree.read("/home/u/.config/hypr/hyprland.conf");
    let shown: Vec<(String, &str, &str)> =
        binds.iter().map(|b| (b.mods.join("+"), b.key.as_str(), b.command.as_str())).collect();
    assert_eq!(
        shown,
        vec![
            ("SUPER+#+the+key".to_string(), "E", "exec nautilus --new-window"),
            ("SUPER+#+the+key".to_string(), "Return", "exec $terminal"),
            ("SUPER+#+the+key+SHIFT".to_string(), "Q", "killactive"),
            ("SUPER+#+the+key".to_string(), "mouse:272", "movewindow"),
            ("".to_string(), "XF86AudioRaiseVolume", "exec wpctl set-volume -l 1 @DEFAULT_AUDIO_SINK@ 5%+"),
            ("".to_string(), "Caps_Lock", "exec swaync-client -t -sw"),
        ]
    );
    assert!(binds.iter().all(|b| b.description.is_none()));
    assert_eq!(ctx.variables[0], ("mainMod".to_string(), "SUPER # the key".to_string()));
}

#[test]
fn file_sourced_under_another_spelling_is_read_once() {
    let tree = Tree::new(&[
        ("/c/a.conf", "bind = SUPER, A, exec, a\nsource = /c/./a.conf\nsource = /c//a.conf\nbind = SUPER, B, exec, b\n"),
        ("/c/./a.conf", "bind = SUPER, A, exec, a\n"),
        ("/c//a.conf", "bind = SUPER, A, exec, a\n"),
    ]);
    let (binds, ctx) = tree.read("/c/a.conf");
    assert_eq!(keys(&binds), vec!["A", "B"]);
    assert_eq!(ctx.processed_files, vec!["/c/a.conf"]);
    assert_eq!(*tree.reads.borrow(), vec!["/c/a.conf"]);
}

#[test]
fn file_entered_before_is_not_asked_for() {
    let disk = Disk::new();
    let mut ctx = HyprContext::new();
    assert!(ctx.enter_file("/a/"));
    let mut binds = Vec::new();
    let wanted = parse_hyprland_recursive("/a", &disk, &None, &Vec::new(), &mut ctx, &mut binds);
    assert!(wanted.is_none());
    assert!(binds.is_empty());
    assert_eq!(ctx.processed_files, vec!["/a"]);
}

#[test]
fn files_entered_are_held_in_normal_spelling() {
    let mut ctx = HyprContext::new();
    assert!(ctx.enter_file("/a//b/./c/"));
    assert!(!ctx.enter_file("/a/b/c"));
    assert!(ctx.has_entered("/a/b/./c"));
    assert!(ctx.enter_file("a/b/c"));
    assert!(ctx.enter_file("/a/b/../c"));
    assert_eq!(ctx.processed_files, vec!["/a/b/c", "a/b/c", "/a/b/../c"]);
}
