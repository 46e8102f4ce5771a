use hotkeyhub::pattern::Captured;
use hotkeyhub::utils::{normalize_path, resolve_path, resolve_reference, NESTED_REFERENCES};

fn env(pairs: &[(&str, &str)]) -> Vec<(String, String)> {
    pairs.iter().map(|(k, v)| (k.to_string(), v.to_string())).collect()
}

fn home() -> Option<String> {
    Some("/home/u".to_string())
}

#[test]
fn leading_tilde_is_the_home_directory() {
    assert_eq!(resolve_path("~/.config/hypr/binds.conf", &home(), &env(&[])), "/home/u/.config/hypr/binds.conf");
    assert_eq!(resolve_path("/a/~/b", &home(), &env(&[])), "/a/~/b");
    assert_eq!(resolve_path("~~", &home(), &env(&[])), "/home/u~");
}

#[test]
fn home_variable_is_the_home_directory_everywhere() {
    assert_eq!(resolve_path("$HOME/a:$HOME/b", &home(), &env(&[])), "/home/u/a:/home/u/b");
}

#[test]
fn without_home_the_path_stays() {
    assert_eq!(resolve_path("~/x", &None, &env(&[])), "~/x");
    assert_eq!(resolve_path("$HOME/x", &None, &env(&[])), "$HOME/x");
    assert_eq!(resolve_path("$HOME/x", &None, &env(&[("HOME", "/h")])), "/h/x");
}

#[test]
fn environment_variables_are_put_in() {
    let e = env(&[("XDG_CONFIG_HOME", "/cfg"), ("NAME", "hypr")]);
    assert_eq!(resolve_path("$XDG_CONFIG_HOME/$NAME/a.conf", &home(), &e), "/cfg/hypr/a.conf");
    assert_eq!(resolve_path("$NAME-$NAME", &home(), &e), "hypr-hypr");
}

#[test]
fn value_may_hold_a_reference() {
    let e = env(&[("A", "$B/x"), ("B", "/b")]);
    assert_eq!(resolve_path("$A", &None, &e), "/b/x");
}

#[test]
fn unknown_variable_ends_the_substitution() {
    let e = env(&[("B", "/b")]);
    assert_eq!(resolve_path("$A/$B", &None, &e), "$A/$B");
    assert_eq!(resolve_path("$B/$A/$B", &None, &e), "/b/$A/$B");
    assert_eq!(resolve_path("$1/$B", &None, &e), "$1//b");
}

#[test]
fn reference_is_the_whole_name() {
    let e = env(&[("FOO", "x")]);
    assert_eq!(resolve_path("$FOO/$FOOBAR", &None, &e), "x/$FOOBAR");
    assert_eq!(resolve_path("$FOOBAR/$FOO", &None, &e), "$FOOBAR/$FOO");
    let e = env(&[("FOO", "x"), ("FOOBAR", "y")]);
    assert_eq!(resolve_path("$FOO/$FOOBAR", &None, &e), "x/y");
    assert_eq!(resolve_path("$FOOBAR$FOO-$FOO", &None, &e), "yx-x");
}

#[test]
fn every_reference_is_resolved_however_many() {
    let names: Vec<String> = (0..200).map(|i| format!("V{}", i)).collect();
    let e: Vec<(String, String)> = names.iter().map(|n| (n.clone(), n.to_lowercase())).collect();
    let path: String = names.iter().map(|n| format!("/${}", n)).collect();
    let expected: String = names.iter().map(|n| format!("/{}", n.to_lowercase())).collect();
    assert_eq!(resolve_path(&path, &None, &e), expected);
}

#[test]
fn value_that_names_itself_ends_after_the_bound() {
    let e = env(&[("A", "$A")]);
    assert_eq!(resolve_path("$A", &None, &e), "$A");
    let e = env(&[("A", "x$A")]);
    assert_eq!(resolve_path("$A", &None, &e), format!("{}$A", "x".repeat(NESTED_REFERENCES)));
    let e = env(&[("A", "$B"), ("B", "$A")]);
    assert_eq!(resolve_path("$A/c", &None, &e), "$A/c");
}

#[test]
fn plain_path_is_unchanged() {
    assert_eq!(resolve_path("/etc/hypr.conf", &home(), &env(&[("A", "b")])), "/etc/hypr.conf");
    assert_eq!(resolve_path("", &home(), &env(&[])), "");
}

#[test]
fn reference_is_resolved_from_what_was_found() {
    let found = Some(Captured {
        before: "a/".to_string(),
        groups: vec![Some("$X".to_string()), Some("X".to_string())],
        after: "/b/$X".to_string(),
    });
    let e = env(&[("Y", "no"), ("X", "yes"), ("X", "late")]);
    assert_eq!(resolve_reference(&found, &e), Some("a/yes/b/$X".to_string()));
    assert_eq!(resolve_reference(&found, &env(&[])), None);
    assert_eq!(resolve_reference(&None, &e), None);
}

#[test]
fn normal_spelling_drops_what_makes_no_difference() {
    assert_eq!(normalize_path("/c/./a.conf"), "/c/a.conf");
    assert_eq!(normalize_path("a//b/"), "a/b");
    assert_eq!(normalize_path("./a/."), "./a");
    assert_eq!(normalize_path("/./a"), "/a");
    assert_eq!(normalize_path("."), ".");
    assert_eq!(normalize_path("./."), ".");
    assert_eq!(normalize_path(""), "");
    assert_eq!(normalize_path("///"), "/");
    assert_eq!(normalize_path("a/../b"), "a/../b");
    assert_eq!(normalize_path("..a/.b/..."), "..a/.b/...");
}

#[test]
fn spellings_agree_as_paths_do() {
    let samples = [
        "", ".", "./", "/", "//", "/.", "a", "./a", "a/", "a/.", "a//b", "a/b", "a/./b", "/a/b",
        "/a//b/", "/a/./b/.", "a/../b", "../a", "./../a", ".a", "a/.b", "/./a", "././a", ".//a",
    ];
    for a in samples {
        for b in samples {
            assert_eq!(
                normalize_path(a) == normalize_path(b),
                std::path::Path::new(a) == std::path::Path::new(b),
                "{:?} {:?}",
                a,
                b
            );
        }
    }
}
