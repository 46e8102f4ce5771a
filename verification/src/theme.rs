//! The colours of the user interface: read from a settings file, given out
//! as a style sheet.

use crate::models::Theme;
use crate::pattern::{first_match, group_of, opt_found, Captured, Matcher};
use crate::text::{equal, strings, to_chars, to_text, trim, trimmed};
use vstd::prelude::*;
use vstd::string::StringExecFns;

verus! {

/// The regular expression of a setting: `key = value`, the key (group 1)
/// made of lower-case letters and underscores, the value (group 2) the rest
/// of the line.
pub const SETTING_LINE: &'static str = r"^\s*([a-z_]+)\s*=\s*(.+)$";

/// The mathematical view of a [`Theme`].
pub struct ThemeView {
    pub background: Seq<char>,
    pub background_alt: Seq<char>,
    pub accent: Seq<char>,
    pub text: Seq<char>,
    pub border: Seq<char>,
}

impl View for Theme {
    type V = ThemeView;

    open spec fn view(&self) -> ThemeView {
        ThemeView {
            background: self.background@,
            background_alt: self.background_alt@,
            accent: self.accent@,
            text: self.text@,
            border: self.border@,
        }
    }
}

/// The colours used where no setting says otherwise.
pub open spec fn default_theme() -> ThemeView {
    ThemeView {
        background: "#1e1e2e"@,
        background_alt: "#313244"@,
        accent: "#89b4fa"@,
        text: "#cdd6f4"@,
        border: "#45475a"@,
    }
}

impl Default for Theme {
    fn default() -> (theme: Theme)
        ensures
            theme@ == default_theme(),
    {
        Theme {
            background: "#1e1e2e".to_owned(),
            background_alt: "#313244".to_owned(),
            accent: "#89b4fa".to_owned(),
            text: "#cdd6f4".to_owned(),
            border: "#45475a".to_owned(),
        }
    }
}

/// The theme after the setting `key = value`. The keys are `background`,
/// `background_alt`, `accent`, `text`, and `border` or `border_color`; any
/// other key changes nothing.
pub open spec fn with_setting(theme: ThemeView, key: Seq<char>, value: Seq<char>) -> ThemeView {
    if key == "background"@ {
        ThemeView { background: value, ..theme }
    } else if key == "background_alt"@ {
        ThemeView { background_alt: value, ..theme }
    } else if key == "accent"@ {
        ThemeView { accent: value, ..theme }
    } else if key == "text"@ {
        ThemeView { text: value, ..theme }
    } else if key == "border"@ || key == "border_color"@ {
        ThemeView { border: value, ..theme }
    } else {
        theme
    }
}

/// Applies the setting `key = value` to `theme`.
pub fn apply_setting(theme: &mut Theme, key: &str, value: String)
    ensures
        final(theme)@ == with_setting(old(theme)@, key@, value@),
{
    if equal(key, "background") {
        theme.background = value;
    } else if equal(key, "background_alt") {
        theme.background_alt = value;
    } else if equal(key, "accent") {
        theme.accent = value;
    } else if equal(key, "text") {
        theme.text = value;
    } else if equal(key, "border") || equal(key, "border_color") {
        theme.border = value;
    }
}

/// The key and the trimmed value of a setting, given what the search for
/// the setting shape found in its line.
pub open spec fn setting_of(found: Option<Seq<char>>, value: Option<Seq<char>>) -> Option<
    (Seq<char>, Seq<char>),
> {
    match (found, value) {
        (Some(key), Some(value)) => Some((key, trimmed(value))),
        _ => None,
    }
}

/// The setting that `line` holds. The line is trimmed; an empty line and a
/// line that begins with `#` hold none.
pub open spec fn line_setting(line: Seq<char>) -> Option<(Seq<char>, Seq<char>)> {
    let text = trimmed(line);
    if text.len() == 0 || text[0] == '#' {
        None
    } else {
        let found = first_match(SETTING_LINE@, text);
        setting_of(group_of(found, 1), group_of(found, 2))
    }
}

/// The theme after the settings of `lines`, applied in order to `theme`.
pub open spec fn themed(lines: Seq<Seq<char>>, theme: ThemeView) -> ThemeView
    decreases lines.len(),
{
    if lines.len() == 0 {
        theme
    } else {
        let earlier = themed(lines.drop_last(), theme);
        match line_setting(lines.last()) {
            Some((key, value)) => with_setting(earlier, key, value),
            None => earlier,
        }
    }
}

/// The key and the value of a setting, given what the search for the
/// setting shape found in its line.
pub fn read_setting(found: &Option<Captured>) -> (out: Option<(String, String)>)
    ensures
        match out {
            Some((key, value)) => setting_of(
                group_of(opt_found(*found), 1),
                group_of(opt_found(*found), 2),
            ) == Some((key@, value@)),
            None => setting_of(
                group_of(opt_found(*found), 1),
                group_of(opt_found(*found), 2),
            ).is_none(),
        },
{
    match found {
        Some(f) => match f.group(1) {
            Some(key) => match f.group(2) {
                Some(value) => Some((to_text(&key), to_text(&trim(&value)))),
                None => None,
            },
            None => None,
        },
        None => None,
    }
}

/// Reads the settings file, given as its lines: the default theme, changed
/// by each setting in turn. Lines of no known shape are passed over.
pub fn load_theme(lines: &Vec<String>) -> (theme: Theme)
    ensures
        theme@ == themed(strings(lines@), default_theme()),
{
    let matcher = Matcher::compile(SETTING_LINE);
    let mut theme = Theme::default();
    let mut i: usize = 0;
    proof {
        assert(strings(lines@).take(0) =~= Seq::empty());
    }
    while i < lines.len()
        invariant
            i <= lines.len(),
            matcher.pattern() == SETTING_LINE@,
            theme@ == themed(strings(lines@).take(i as int), default_theme()),
        decreases lines.len() - i,
    {
        proof {
            assert(strings(lines@).take(i + 1).drop_last() =~= strings(lines@).take(i as int));
            assert(strings(lines@).take(i + 1).last() == lines@[i as int]@);
        }
        let text = trim(&to_chars(lines[i].as_str()));
        if !(text.len() == 0 || text[0] == '#') {
            let found = matcher.captures(to_text(&text).as_str());
            match read_setting(&found) {
                Some((key, value)) => {
                    apply_setting(&mut theme, key.as_str(), value);
                },
                None => {},
            }
        }
        i += 1;
    }
    proof {
        assert(strings(lines@).take(lines.len() as int) =~= strings(lines@));
    }
    theme
}

/// The style sheet of the user interface in the colours of `theme`.
pub open spec fn stylesheet(theme: ThemeView) -> Seq<char> {
    "\n        window { background: "@
        + theme.background
        + "; color: "@
        + theme.text
        + "; font-family: 'JetBrains Mono', sans-serif; }\n        tab { background: "@
        + theme.background
        + "; color: "@
        + theme.text
        + "; padding: 5px; }\n        tab:checked { color: "@
        + theme.text
        + "; border-bottom: 2px solid "@
        + theme.accent
        + "; }\n        .tab-container { padding: 20px; }\n        \n        .search-bar {\n            background: "@
        + theme.background_alt
        + ";\n            color: "@
        + theme.text
        + ";\n            border: 1px solid "@
        + theme.border
        + "; \n            border-radius: 8px;\n        }\n        \n        .bind-card {\n            background: "@
        + theme.background_alt
        + ";\n            padding: 12px;\n            border-radius: 8px;\n            border: 1px solid "@
        + theme.border
        + ";\n        }\n        \n        .keycap {\n            background: "@
        + theme.background
        + "; \n            color: "@
        + theme.text
        + ";\n            font-weight: 800;\n            padding: 4px 10px;\n            border-radius: 6px;\n            border-bottom: 3px solid "@
        + theme.background
        + "; \n            margin-right: 2px;\n            margin-bottom: 2px;\n            min-width: 24px;\n            text-align: center;\n            border: 1px solid alpha("@
        + theme.text
        + ", 0.2);\n        }\n        \n        .keycap-super {\n            background: "@
        + theme.accent
        + ";\n            color: "@
        + theme.background
        + ";\n            border-bottom-color: shade("@
        + theme.accent
        + ", 0.8);\n        }\n        \n        .command { color: alpha("@
        + theme.text
        + ", 0.7); margin-top: 8px; font-size: 0.9em; }\n        .plus { color: alpha("@
        + theme.text
        + ", 0.5); margin: 0 4px; font-weight: bold; }\n        "@
}

/// Writes the style sheet of the user interface in the colours of `theme`.
pub fn generate_css(theme: &Theme) -> (css: String)
    ensures
        css@ == stylesheet(theme@),
{
    let mut css = "\n        window { background: ".to_owned();
    css.append(theme.background.as_str());
    css.append("; color: ");
    css.append(theme.text.as_str());
    css.append("; font-family: 'JetBrains Mono', sans-serif; }\n        tab { background: ");
    css.append(theme.background.as_str());
    css.append("; color: ");
    css.append(theme.text.as_str());
    css.append("; padding: 5px; }\n        tab:checked { color: ");
    css.append(theme.text.as_str());
    css.append("; border-bottom: 2px solid ");
    css.append(theme.accent.as_str());
    css.append("; }\n        .tab-container { padding: 20px; }\n        \n        .search-bar {\n            background: ");
    css.append(theme.background_alt.as_str());
    css.append(";\n            color: ");
    css.append(theme.text.as_str());
    css.append(";\n            border: 1px solid ");
    css.append(theme.border.as_str());
    css.append("; \n            border-radius: 8px;\n        }\n        \n        .bind-card {\n            background: ");
    css.append(theme.background_alt.as_str());
    css.append(";\n            padding: 12px;\n            border-radius: 8px;\n            border: 1px solid ");
    css.append(theme.border.as_str());
    css.append(";\n        }\n        \n        .keycap {\n            background: ");
    css.append(theme.background.as_str());
    css.append("; \n            color: ");
    css.append(theme.text.as_str());
    css.append(";\n            font-weight: 800;\n            padding: 4px 10px;\n            border-radius: 6px;\n            border-bottom: 3px solid ");
    css.append(theme.background.as_str());
    css.append("; \n            margin-right: 2px;\n            margin-bottom: 2px;\n            min-width: 24px;\n            text-align: center;\n            border: 1px solid alpha(");
    css.append(theme.text.as_str());
    css.append(", 0.2);\n        }\n        \n        .keycap-super {\n            background: ");
    css.append(theme.accent.as_str());
    css.append(";\n            color: ");
    css.append(theme.background.as_str());
    css.append(";\n            border-bottom-color: shade(");
    css.append(theme.accent.as_str());
    css.append(", 0.8);\n        }\n        \n        .command { color: alpha(");
    css.append(theme.text.as_str());
    css.append(", 0.7); margin-top: 8px; font-size: 0.9em; }\n        .plus { color: alpha(");
    css.append(theme.text.as_str());
    css.append(", 0.5); margin: 0 4px; font-weight: bold; }\n        ");
    css
}

} // verus!
