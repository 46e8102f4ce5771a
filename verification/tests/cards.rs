use hotkeyhub::models::Keybind;
use hotkeyhub::ui::tab_builder::{is_shown, key_label, navigate, search_text, step, Direction};

fn bind(mods: &[&str], key: &str, command: &str, description: Option<&str>) -> Keybind {
    Keybind {
        mods: mods.iter().map(|m| m.to_string()).collect(),
        key: key.to_string(),
        command: command.to_string(),
        description: description.map(|d| d.to_string()),
    }
}

#[test]
fn search_text_is_lower_case_and_space_separated() {
    let b = bind(&["SUPER", "Shift"], "Q", "Kill Active", Some("Close It"));
    assert_eq!(search_text(&b), "super shift q kill active close it");
    let b = bind(&[], "Q", "exec", None);
    assert_eq!(search_text(&b), " q exec ");
}

#[test]
fn empty_query_shows_every_card() {
    assert!(is_shown("super q kill ", ""));
    assert!(is_shown("", ""));
}

#[test]
fn query_is_sought_in_lower_case() {
    assert!(is_shown("super q kill ", "KILL"));
    assert!(is_shown("super q kill ", "r q"));
    assert!(is_shown("super q kill ", "super q kill "));
    assert!(!is_shown("super q kill ", "kill  "));
    assert!(!is_shown("super q kill ", "alt"));
    assert!(!is_shown("", "a"));
}

#[test]
fn single_letter_key_is_shown_in_upper_case() {
    assert_eq!(key_label("q"), "Q");
    assert_eq!(key_label("é"), "É");
    assert_eq!(key_label("1"), "1");
    assert_eq!(key_label("F1"), "F1");
    assert_eq!(key_label("period"), ".");
    assert_eq!(key_label("Escape"), "Esc");
}

fn two_rows() -> Vec<(i32, i32)> {
    vec![(0, 0), (0, 100), (0, 200), (50, 0), (50, 100)]
}

#[test]
fn left_and_right_wrap_within_the_row() {
    let p = two_rows();
    assert_eq!(navigate(&p, Some(0), Direction::Right), Some(1));
    assert_eq!(navigate(&p, Some(2), Direction::Right), Some(0));
    assert_eq!(navigate(&p, Some(0), Direction::Left), Some(2));
    assert_eq!(navigate(&p, Some(4), Direction::Left), Some(3));
    assert_eq!(navigate(&p, Some(4), Direction::Right), Some(3));
}

#[test]
fn up_and_down_keep_the_column_and_wrap() {
    let p = two_rows();
    assert_eq!(navigate(&p, Some(1), Direction::Down), Some(4));
    assert_eq!(navigate(&p, Some(2), Direction::Down), Some(4));
    assert_eq!(navigate(&p, Some(4), Direction::Down), Some(1));
    assert_eq!(navigate(&p, Some(0), Direction::Up), Some(3));
    assert_eq!(navigate(&p, Some(2), Direction::Up), Some(4));
    assert_eq!(navigate(&p, Some(3), Direction::Up), Some(0));
}

#[test]
fn without_selection_the_first_card_is_taken() {
    let p = two_rows();
    assert_eq!(navigate(&p, None, Direction::Down), Some(0));
    assert_eq!(navigate(&p, Some(17), Direction::Left), Some(0));
    assert_eq!(navigate(&Vec::new(), None, Direction::Down), None);
    assert_eq!(navigate(&Vec::new(), Some(0), Direction::Up), None);
}

#[test]
fn cards_are_read_by_place_not_by_number() {
    let p = vec![(50, 0), (0, 100), (0, 0)];
    assert_eq!(navigate(&p, Some(2), Direction::Right), Some(1));
    assert_eq!(navigate(&p, Some(1), Direction::Right), Some(2));
    assert_eq!(navigate(&p, Some(1), Direction::Down), Some(0));
    assert_eq!(navigate(&p, Some(0), Direction::Down), Some(2));
}

#[test]
fn cards_at_most_thirty_apart_share_a_row() {
    let p = vec![(0, 0), (30, 100), (60, 200), (91, 0)];
    assert_eq!(navigate(&p, Some(2), Direction::Right), Some(0));
    assert_eq!(navigate(&p, Some(3), Direction::Right), Some(3));
    assert_eq!(navigate(&p, Some(3), Direction::Up), Some(0));
    let p = vec![(i32::MIN, 0), (i32::MAX, 0)];
    assert_eq!(navigate(&p, Some(0), Direction::Right), Some(0));
    assert_eq!(navigate(&p, Some(0), Direction::Down), Some(1));
}

#[test]
fn cards_at_the_same_place_keep_their_order() {
    let p = vec![(0, 0), (0, 0), (0, 0)];
    assert_eq!(navigate(&p, Some(0), Direction::Right), Some(1));
    assert_eq!(navigate(&p, Some(1), Direction::Right), Some(2));
}

#[test]
fn step_reads_the_grid() {
    let grid = vec![vec![5, 6, 7], vec![8]];
    assert_eq!(step(&grid, Some((0, 2)), Direction::Down), 8);
    assert_eq!(step(&grid, Some((1, 0)), Direction::Down), 5);
    assert_eq!(step(&grid, Some((1, 0)), Direction::Left), 8);
    assert_eq!(step(&grid, None, Direction::Up), 0);
}
