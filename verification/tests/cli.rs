use hotkeyhub::cli::parse_args;
use hotkeyhub::models::RunMode;

fn args(list: &[&str]) -> Vec<String> {
    list.iter().map(|a| a.to_string()).collect()
}

#[test]
fn no_option_shows_everything() {
    assert!(matches!(parse_args(&args(&["prog"])), RunMode::All));
    assert!(matches!(parse_args(&args(&[])), RunMode::All));
    assert!(matches!(parse_args(&args(&["prog", "x", "--other"])), RunMode::All));
}

#[test]
fn option_with_path_selects_one_file() {
    let mode = parse_args(&args(&["prog", "--hyprland", "/a.conf"]));
    assert!(matches!(mode, RunMode::SingleHyprland(ref p) if p == "/a.conf"));
    let mode = parse_args(&args(&["prog", "--sxhkd", "/b"]));
    assert!(matches!(mode, RunMode::SingleSxhkd(ref p) if p == "/b"));
}

#[test]
fn option_without_path_is_passed_over() {
    assert!(matches!(parse_args(&args(&["prog", "--hyprland"])), RunMode::All));
    let mode = parse_args(&args(&["prog", "--sxhkd", "/b", "--hyprland"]));
    assert!(matches!(mode, RunMode::SingleSxhkd(ref p) if p == "/b"));
}

#[test]
fn last_option_decides() {
    let mode = parse_args(&args(&["prog", "--hyprland", "/a", "--sxhkd", "/b"]));
    assert!(matches!(mode, RunMode::SingleSxhkd(ref p) if p == "/b"));
}

#[test]
fn path_is_not_read_as_an_option() {
    let mode = parse_args(&args(&["prog", "--hyprland", "--sxhkd", "/b"]));
    assert!(matches!(mode, RunMode::SingleHyprland(ref p) if p == "--sxhkd"));
}

#[test]
fn program_name_is_not_an_option() {
    assert!(matches!(parse_args(&args(&["--hyprland", "/a"])), RunMode::All));
}
