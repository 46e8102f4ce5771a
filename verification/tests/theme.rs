use hotkeyhub::models::Theme;
use hotkeyhub::pattern::Captured;
use hotkeyhub::theme::{apply_setting, generate_css, load_theme, read_setting};

fn lines(text: &str) -> Vec<String> {
    text.lines().map(|l| l.to_string()).collect()
}

#[test]
fn default_theme_has_the_stock_colours() {
    let t = Theme::default();
    assert_eq!(t.background, "#1e1e2e");
    assert_eq!(t.background_alt, "#313244");
    assert_eq!(t.accent, "#89b4fa");
    assert_eq!(t.text, "#cdd6f4");
    assert_eq!(t.border, "#45475a");
}

#[test]
fn settings_change_the_default() {
    let t = load_theme(&lines(
        "# colours\nbackground = #000000\n\n  accent=  red  \nborder_color = #111111\nfont = mono\nText = #fff\n",
    ));
    assert_eq!(t.background, "#000000");
    assert_eq!(t.background_alt, "#313244");
    assert_eq!(t.accent, "red");
    assert_eq!(t.text, "#cdd6f4");
    assert_eq!(t.border, "#111111");
}

#[test]
fn later_setting_wins() {
    let t = load_theme(&lines("text = a\nborder = b\ntext = c\nborder_color = d\nbackground_alt = e\n"));
    assert_eq!(t.text, "c");
    assert_eq!(t.border, "d");
    assert_eq!(t.background_alt, "e");
}

#[test]
fn empty_file_gives_the_default() {
    let t = load_theme(&Vec::new());
    assert_eq!(t.background, Theme::default().background);
}

#[test]
fn unknown_key_changes_nothing() {
    let mut t = Theme::default();
    apply_setting(&mut t, "colour", "x".to_string());
    apply_setting(&mut t, "", "x".to_string());
    assert_eq!(generate_css(&t), generate_css(&Theme::default()));
    apply_setting(&mut t, "accent", "x".to_string());
    assert_eq!(t.accent, "x");
}

#[test]
fn setting_is_key_and_trimmed_value() {
    let found = Some(Captured {
        before: String::new(),
        groups: vec![Some("a = b ".to_string()), Some("a".to_string()), Some(" b ".to_string())],
        after: String::new(),
    });
    assert_eq!(read_setting(&found), Some(("a".to_string(), "b".to_string())));
    assert_eq!(read_setting(&None), None);
}

#[test]
fn style_sheet_is_written_in_the_theme_colours() {
    let theme = Theme {
        background: "BG".to_string(),
        background_alt: "ALT".to_string(),
        accent: "ACC".to_string(),
        text: "TXT".to_string(),
        border: "BRD".to_string(),
    };
    let expected = format!(
        r#"
        window {{ background: {bg}; color: {text}; font-family: 'JetBrains Mono', sans-serif; }}
        tab {{ background: {bg}; color: {text}; padding: 5px; }}
        tab:checked {{ color: {text}; border-bottom: 2px solid {accent}; }}
        .tab-container {{ padding: 20px; }}
        
        .search-bar {{
            background: {bg_alt};
            color: {text};
            border: 1px solid {border}; 
            border-radius: 8px;
        }}
        
        .bind-card {{
            background: {bg_alt};
            padding: 12px;
            border-radius: 8px;
            border: 1px solid {border};
        }}
        
        .keycap {{
            background: {bg}; 
            color: {text};
            font-weight: 800;
            padding: 4px 10px;
            border-radius: 6px;
            border-bottom: 3px solid {bg}; 
            margin-right: 2px;
            margin-bottom: 2px;
            min-width: 24px;
            text-align: center;
            border: 1px solid alpha({text}, 0.2);
        }}
        
        .keycap-super {{
            background: {accent};
            color: {bg};
            border-bottom-color: shade({accent}, 0.8);
        }}
        
        .command {{ color: alpha({text}, 0.7); margin-top: 8px; font-size: 0.9em; }}
        .plus {{ color: alpha({text}, 0.5); margin: 0 4px; font-weight: bold; }}
        "#,
        bg = theme.background,
        bg_alt = theme.background_alt,
        accent = theme.accent,
        text = theme.text,
        border = theme.border
    );
    assert_eq!(generate_css(&theme), expected);
}
