//! The directive dialect: one directive per line.
//!
//! ```text
//! $mod = SUPER
//! source = ~/.config/hypr/binds.conf
//! bind = $mod SHIFT, Q, killactive
//! ```
//!
//! [`parse_hyprland_recursive`] reads a configuration together with the
//! files that it sources. It does not touch the disk: it reads from a
//! [`Disk`], which holds what has been learnt of the disk so far, and says
//! what it is missing. [`HyprContext`] carries the variables and the files
//! already entered through the whole traversal.

use crate::models::{is_blank_token, keybinds, Keybind, KeybindView};
use crate::pattern::{first_match, group_of, opt_found, Captured, Found, Matcher};
use crate::utils::{normal_path, normalize_path, resolve_with, resolved, ENV_REFERENCE};
use crate::text::{
    append, assignments, before_first, equal, fields, joined, join_from, opt_text, replace, replaced, slice,
    split_trimmed, strings, take_before, texts, to_chars, to_strings, to_text, trim, trimmed,
    trimmed_fields, upper_case, value_of, white_space, find_value,
};
use vstd::prelude::*;

verus! {

/// The regular expression of a variable assignment: `$NAME = VALUE`, the
/// name (group 1) made of letters, digits and underscores, the value
/// (group 2) the rest of the line.
pub const VARIABLE_LINE: &'static str = r"^\s*\$([a-zA-Z0-9_]+)\s*=\s*(.+)$";

/// The regular expression of an include directive: `source = VALUE`, the
/// value (group 1) the rest of the line.
pub const SOURCE_LINE: &'static str = r"^\s*source\s*=\s*(.+)$";

/// The regular expression of a bind directive: `bind`, a run of lower-case
/// letters, `= CONTENT`, the content (group 1) the rest of the line.
pub const BIND_LINE: &'static str = r"^\s*bind[a-z]*\s*=\s*(.+)$";

// ---------------------------------------------------------------------------
// The context of one traversal
// ---------------------------------------------------------------------------

/// The state of one traversal: the variables assigned so far, in the order
/// of their first assignment, and the files entered so far, each in its
/// normal spelling. No name and no file occurs twice: see
/// [`ContextView::well_formed`].
pub struct HyprContext {
    pub variables: Vec<(String, String)>,
    pub processed_files: Vec<String>,
}

/// The mathematical view of a [`HyprContext`].
pub struct ContextView {
    pub variables: Seq<(Seq<char>, Seq<char>)>,
    pub visited: Seq<Seq<char>>,
}

impl ContextView {
    /// The invariant of a context: every variable is held once, and every
    /// file entered is held once.
    pub open spec fn well_formed(self) -> bool {
        &&& forall|i: int, j: int|
            0 <= i < j < self.variables.len() ==> self.variables[i].0 != self.variables[j].0
        &&& forall|i: int, j: int|
            0 <= i < j < self.visited.len() ==> self.visited[i] != self.visited[j]
    }
}

impl View for HyprContext {
    type V = ContextView;

    open spec fn view(&self) -> ContextView {
        ContextView {
            variables: assignments(self.variables@),
            visited: strings(self.processed_files@),
        }
    }
}

/// The position, from `from` on, of the first assignment to `name`; the
/// length of `variables` where there is none.
pub open spec fn position_from(
    variables: Seq<(Seq<char>, Seq<char>)>,
    name: Seq<char>,
    from: int,
) -> int
    decreases variables.len() - from,
{
    if from < 0 || from >= variables.len() {
        variables.len() as int
    } else if variables[from].0 == name {
        from
    } else {
        position_from(variables, name, from + 1)
    }
}

/// The variables after `name` was assigned `value`: an earlier assignment to
/// the name is overwritten in its place, a new name comes last.
pub open spec fn assigned(
    variables: Seq<(Seq<char>, Seq<char>)>,
    name: Seq<char>,
    value: Seq<char>,
) -> Seq<(Seq<char>, Seq<char>)> {
    let at = position_from(variables, name, 0);
    if at < variables.len() {
        variables.update(at, (name, value))
    } else {
        variables.push((name, value))
    }
}

impl HyprContext {
    /// A context without variables and without files.
    pub fn new() -> (ctx: HyprContext)
        ensures
            ctx@.variables.len() == 0,
            ctx@.visited.len() == 0,
            ctx@.well_formed(),
    {
        HyprContext { variables: Vec::new(), processed_files: Vec::new() }
    }

    /// Assigns `value` to the variable `name`.
    pub fn assign(&mut self, name: String, value: String)
        ensures
            final(self)@.variables == assigned(old(self)@.variables, name@, value@),
            final(self)@.visited == old(self)@.visited,
            old(self)@.well_formed() ==> final(self)@.well_formed(),
    {
        let mut at: usize = 0;
        while at < self.variables.len() && !equal(self.variables[at].0.as_str(), name.as_str())
            invariant
                at <= self.variables.len(),
                *self == *old(self),
                forall|k: int| 0 <= k < at ==> self@.variables[k].0 != name@,
                position_from(self@.variables, name@, 0) == position_from(
                    self@.variables,
                    name@,
                    at as int,
                ),
            decreases self.variables.len() - at,
        {
            at += 1;
        }
        if at < self.variables.len() {
            proof {
                assert(assignments(self.variables@.update(at as int, (name, value)))
                    =~= assignments(self.variables@).update(at as int, (name@, value@)));
                assert(self@.variables[at as int].0 == name@);
            }
            self.variables.set(at, (name, value));
        } else {
            proof {
                assert(assignments(self.variables@.push((name, value))) =~= assignments(
                    self.variables@,
                ).push((name@, value@)));
            }
            self.variables.push((name, value));
        }
        proof {
            if old(self)@.well_formed() {
                let before = old(self)@.variables;
                let after = self@.variables;
                assert forall|i: int, j: int| 0 <= i < j < after.len() implies after[i].0
                    != after[j].0 by {
                    if j < before.len() {
                        assert(after[i].0 == before[i].0);
                        assert(after[j].0 == before[j].0);
                    } else {
                        assert(after[i].0 == before[i].0);
                    }
                }
            }
        }
    }

    /// Whether the file at `path` was entered before, under this spelling
    /// of its path or another.
    pub fn has_entered(&self, path: &str) -> (yes: bool)
        ensures
            yes == self@.visited.contains(normal_path(path@)),
    {
        let key = normalize_path(path);
        let mut i: usize = 0;
        while i < self.processed_files.len()
            invariant
                i <= self.processed_files.len(),
                key@ == normal_path(path@),
                forall|k: int| 0 <= k < i ==> self@.visited[k] != key@,
            decreases self.processed_files.len() - i,
        {
            if equal(self.processed_files[i].as_str(), key.as_str()) {
                proof {
                    assert(self@.visited[i as int] == key@);
                }
                return true;
            }
            i += 1;
        }
        false
    }

    /// Enters the file at `path` unless it was entered before, and says
    /// whether it did. A file is entered at most once in a traversal: this
    /// is what ends a chain of files that include one another.
    pub fn enter_file(&mut self, path: &str) -> (fresh: bool)
        ensures
            fresh == !old(self)@.visited.contains(normal_path(path@)),
            final(self)@.visited == entered(old(self)@.visited, normal_path(path@)),
            final(self)@.variables == old(self)@.variables,
            old(self)@.well_formed() ==> final(self)@.well_formed(),
    {
        if self.has_entered(path) {
            false
        } else {
            let key = normalize_path(path);
            proof {
                assert(strings(self.processed_files@.push(key)) =~= strings(
                    self.processed_files@,
                ).push(key@));
            }
            self.processed_files.push(key);
            true
        }
    }
}

/// The files entered after an attempt to enter `path`.
pub open spec fn entered(visited: Seq<Seq<char>>, path: Seq<char>) -> Seq<Seq<char>> {
    if visited.contains(path) {
        visited
    } else {
        visited.push(path)
    }
}

/// Cycle safety: once a file was entered it stays entered, whatever is
/// entered after it, so that no file is entered twice.
pub proof fn lemma_entered_once(visited: Seq<Seq<char>>, path: Seq<char>, later: Seq<char>)
    ensures
        entered(visited, path).contains(path),
        entered(entered(visited, path), later).contains(path),
        entered(entered(visited, path), path) == entered(visited, path),
        forall|p: Seq<char>| visited.contains(p) ==> entered(visited, path).contains(p),
{
    let once = entered(visited, path);
    if !visited.contains(path) {
        assert(once[visited.len() as int] == path);
    }
    assert(once.contains(path));
    let twice = entered(once, later);
    if !once.contains(later) {
        let k = choose|k: int| 0 <= k < once.len() && once[k] == path;
        assert(twice[k] == path);
    }
    assert forall|p: Seq<char>| visited.contains(p) implies once.contains(p) by {
        let k = choose|k: int| 0 <= k < visited.len() && visited[k] == p;
        assert(once[k] == p);
    }
}

// ---------------------------------------------------------------------------
// Keys and modifiers
// ---------------------------------------------------------------------------

/// The form in which a key and a modifier are compared: upper case, without
/// underscores, without `LOCK` and without `KEY`, removed in this order.
pub open spec fn normalized(token: Seq<char>) -> Seq<char> {
    replaced(
        replaced(replaced(upper_case(token), seq!['_'], Seq::empty()), "LOCK"@, Seq::empty()),
        "KEY"@,
        Seq::empty(),
    )
}

/// Normalises a key name for comparison, so that `CAPS` and `Caps_Lock`
/// name the same key.
pub fn normalize_key(key: &str) -> (out: String)
    ensures
        out@ == normalized(key@),
{
    let upper = key.to_uppercase();
    let nothing: Vec<char> = Vec::new();
    let mut underscore: Vec<char> = Vec::new();
    underscore.push('_');
    proof {
        assert(underscore@ =~= seq!['_']);
        assert(nothing@ =~= Seq::<char>::empty());
    }
    let plain = replace(&to_chars(upper.as_str()), &underscore, &nothing);
    let unlocked = replace(&plain, &to_chars("LOCK"), &nothing);
    to_text(&replace(&unlocked, &to_chars("KEY"), &nothing))
}

/// Whether `c` may stand in the name of a variable: a letter, a digit or an
/// underscore.
pub open spec fn is_name_char(c: char) -> bool {
    ('a' <= c <= 'z') || ('A' <= c <= 'Z') || ('0' <= c <= '9') || c == '_'
}

/// The length of the name that `s` begins with: of its longest prefix of
/// name characters.
pub open spec fn name_length(s: Seq<char>) -> nat
    decreases s.len(),
{
    if s.len() > 0 && is_name_char(s[0]) {
        name_length(s.drop_first()) + 1
    } else {
        0
    }
}

/// A name is no longer than the text that it begins.
pub proof fn lemma_name_length(s: Seq<char>)
    ensures
        name_length(s) <= s.len(),
    decreases s.len(),
{
    if s.len() > 0 && is_name_char(s[0]) {
        lemma_name_length(s.drop_first());
    }
}

/// `text` with its references replaced. A reference is a `$` and the name
/// that follows it, the whole run of name characters. It is replaced by the
/// value of the variable of that name; a reference to a name without a
/// variable, and a `$` without a name, stay as they are written. A value
/// that is put in is not looked through again.
pub open spec fn substituted(text: Seq<char>, variables: Seq<(Seq<char>, Seq<char>)>) -> Seq<
    char,
>
    decreases text.len(),
{
    if text.len() == 0 {
        text
    } else if text[0] == '$' {
        let length = name_length(text.drop_first()) as int;
        let name = text.subrange(1, 1 + length);
        proof {
            lemma_name_length(text.drop_first());
        }
        match value_of(variables, name) {
            Some(value) => if length > 0 {
                value + substituted(text.skip(1 + length), variables)
            } else {
                seq!['$'] + substituted(text.skip(1), variables)
            },
            None => text.take(1 + length) + substituted(text.skip(1 + length), variables),
        }
    } else {
        seq![text[0]] + substituted(text.drop_first(), variables)
    }
}

/// What a text becomes depends on the values of the variables alone, not on
/// the order in which they were assigned.
pub proof fn lemma_substitution_reads_values(
    text: Seq<char>,
    one: Seq<(Seq<char>, Seq<char>)>,
    other: Seq<(Seq<char>, Seq<char>)>,
)
    requires
        forall|name: Seq<char>| value_of(one, name) == value_of(other, name),
    ensures
        substituted(text, one) == substituted(text, other),
    decreases text.len(),
{
    if text.len() > 0 {
        if text[0] == '$' {
            let length = name_length(text.drop_first()) as int;
            lemma_name_length(text.drop_first());
            if length > 0 {
                lemma_substitution_reads_values(text.skip(1 + length), one, other);
            } else {
                lemma_substitution_reads_values(text.skip(1), one, other);
            }
        } else {
            lemma_substitution_reads_values(text.drop_first(), one, other);
        }
    }
}

/// Replaces the references of `text` by the values of their variables.
fn substitute(text: &Vec<char>, variables: &Vec<(String, String)>) -> (out: Vec<char>)
    ensures
        out@ == substituted(text@, assignments(variables@)),
{
    let mut out: Vec<char> = Vec::new();
    let mut i: usize = 0;
    proof {
        assert(text@.skip(0) =~= text@);
        assert(out@ + substituted(text@, assignments(variables@)) =~= substituted(
            text@,
            assignments(variables@),
        ));
    }
    while i < text.len()
        invariant
            i <= text.len(),
            substituted(text@, assignments(variables@)) == out@ + substituted(
                text@.skip(i as int),
                assignments(variables@),
            ),
        decreases text.len() - i,
    {
        let ghost rest = text@.skip(i as int);
        let ghost vars = assignments(variables@);
        if text[i] != '$' {
            proof {
                assert(rest.drop_first() =~= text@.skip(i + 1));
                assert(out@.push(text@[i as int]) + substituted(text@.skip(i + 1), vars) =~= out@
                    + (seq![text@[i as int]] + substituted(text@.skip(i + 1), vars)));
            }
            out.push(text[i]);
            i += 1;
        } else {
            let mut j: usize = i + 1;
            proof {
                assert(rest.drop_first() =~= text@.skip(i + 1));
            }
            while j < text.len() && is_name(text[j])
                invariant
                    i < j <= text.len(),
                    name_length(text@.skip(i + 1)) == (j - i - 1) + name_length(
                        text@.skip(j as int),
                    ),
                decreases text.len() - j,
            {
                proof {
                    assert(text@.skip(j as int).drop_first() =~= text@.skip(j + 1));
                }
                j += 1;
            }
            let name = slice(text, i + 1, j);
            proof {
                assert(name_length(rest.drop_first()) == j - i - 1);
                assert(name@ =~= rest.subrange(1, 1 + (j - i - 1)));
                assert(rest.skip(1 + (j - i - 1)) =~= text@.skip(j as int));
                assert(rest.take(1 + (j - i - 1)) =~= text@.subrange(i as int, j as int));
            }
            let value = find_value(variables, &name);
            let ghost before = out@;
            match value {
                Some(value) => {
                    if j > i + 1 {
                        append(&mut out, &value);
                        proof {
                            assert((before + value@) + substituted(text@.skip(j as int), vars)
                                =~= before + (value@ + substituted(text@.skip(j as int), vars)));
                        }
                    } else {
                        out.push('$');
                        proof {
                            assert(before.push('$') + substituted(text@.skip(j as int), vars)
                                =~= before + (seq!['$'] + substituted(text@.skip(j as int), vars)));
                        }
                    }
                },
                None => {
                    let written = slice(text, i, j);
                    append(&mut out, &written);
                    proof {
                        assert((before + written@) + substituted(text@.skip(j as int), vars)
                            =~= before + (written@ + substituted(text@.skip(j as int), vars)));
                    }
                },
            }
            i = j;
        }
    }
    proof {
        assert(out@ + Seq::<char>::empty() =~= out@);
    }
    out
}

/// Whether `c` may stand in the name of a variable.
fn is_name(c: char) -> (yes: bool)
    ensures
        yes == is_name_char(c),
{
    ('a' <= c && c <= 'z') || ('A' <= c && c <= 'Z') || ('0' <= c && c <= '9') || c == '_'
}

/// Whether `c` separates modifiers: white space, `+` or `_`.
pub open spec fn is_separator(c: char) -> bool {
    white_space(c) || c == '+' || c == '_'
}

/// Reading `s` from the left: the modifiers closed so far by a separator,
/// and the modifier still open.
pub open spec fn token_state(s: Seq<char>) -> (Seq<Seq<char>>, Seq<char>)
    decreases s.len(),
{
    if s.len() == 0 {
        (Seq::empty(), Seq::empty())
    } else {
        let (closed, open) = token_state(s.drop_last());
        if !is_separator(s.last()) {
            (closed, open.push(s.last()))
        } else if open.len() > 0 {
            (closed.push(open), Seq::empty())
        } else {
            (closed, open)
        }
    }
}

/// The modifiers that `s` names: its maximal runs of characters that are no
/// separators, in order.
pub open spec fn modifier_tokens(s: Seq<char>) -> Seq<Seq<char>> {
    let (closed, open) = token_state(s);
    if open.len() > 0 {
        closed.push(open)
    } else {
        closed
    }
}

/// Splits a modifier expression into its modifiers.
fn tokenize(text: &Vec<char>) -> (out: Vec<Vec<char>>)
    ensures
        texts(out@) == modifier_tokens(text@),
{
    let mut out: Vec<Vec<char>> = Vec::new();
    let mut open: Vec<char> = Vec::new();
    let mut i: usize = 0;
    proof {
        assert(texts(out@) =~= Seq::<Seq<char>>::empty());
    }
    while i < text.len()
        invariant
            i <= text.len(),
            (texts(out@), open@) == token_state(text@.take(i as int)),
        decreases text.len() - i,
    {
        proof {
            assert(text@.take(i + 1).drop_last() =~= text@.take(i as int));
        }
        let c = text[i];
        if !(c.is_whitespace() || c == '+' || c == '_') {
            open.push(c);
        } else if open.len() > 0 {
            proof {
                assert(texts(out@.push(open)) =~= texts(out@).push(open@));
            }
            out.push(open);
            open = Vec::new();
        }
        i += 1;
    }
    proof {
        assert(text@.take(text.len() as int) =~= text@);
    }
    if open.len() > 0 {
        proof {
            assert(texts(out@.push(open)) =~= texts(out@).push(open@));
        }
        out.push(open);
    }
    out
}

// ---------------------------------------------------------------------------
// Bind directives
// ---------------------------------------------------------------------------

/// The comma-separated fields of a bind directive's content before they are
/// trimmed.
pub open spec fn fields_of_body(content: Seq<char>) -> Seq<Seq<char>> {
    fields(trimmed(before_first(content, '#')), ',')
}

/// The fields of a bind directive's content: what stands before the first
/// `#` is trimmed and split at commas, and each field is trimmed.
pub open spec fn bind_fields(content: Seq<char>) -> Seq<Seq<char>> {
    trimmed_fields(trimmed(before_first(content, '#')), ',')
}

/// The modifiers of a binding: the tokens of the modifier expression after
/// substitution; none where there is exactly one token and it names the key
/// itself, the two compared in their normalised forms.
pub open spec fn bind_modifiers(
    expression: Seq<char>,
    key: Seq<char>,
    variables: Seq<(Seq<char>, Seq<char>)>,
) -> Seq<Seq<char>> {
    let tokens = modifier_tokens(substituted(expression, variables));
    if tokens.len() == 1 && normalized(tokens[0]) == normalized(key) {
        Seq::empty()
    } else {
        tokens
    }
}

/// The command that is shown: the dispatcher alone, or the dispatcher, a
/// space, and the arguments joined by `", "`.
pub open spec fn bind_command(fields: Seq<Seq<char>>) -> Seq<char> {
    let arguments = joined(fields.skip(3), ", "@);
    if arguments.len() == 0 {
        fields[2]
    } else {
        fields[2] + seq![' '] + arguments
    }
}

/// The binding that a bind directive with this content declares. There is
/// none where the content has fewer than three fields, or where the key,
/// the second field, is blank.
pub open spec fn bind_of(content: Seq<char>, variables: Seq<(Seq<char>, Seq<char>)>) -> Option<
    KeybindView,
> {
    let fields = bind_fields(content);
    if fields.len() < 3 || is_blank_token(fields[1]) {
        None
    } else {
        Some(
            KeybindView {
                mods: bind_modifiers(fields[0], fields[1], variables),
                key: fields[1],
                command: bind_command(fields),
                description: None,
            },
        )
    }
}

/// Reads the content of a bind directive, `MODS, KEY, DISPATCHER, ARGS..`,
/// with the variables assigned so far.
pub fn parse_bind(content: &str, variables: &Vec<(String, String)>) -> (out: Option<Keybind>)
    ensures
        match out {
            Some(b) => bind_of(content@, assignments(variables@)) == Some(b@),
            None => bind_of(content@, assignments(variables@)).is_none(),
        },
        out matches Some(b) ==> b@.key == bind_fields(content@)[1] && b@.well_formed(),
{
    let body = trim(&take_before(&to_chars(content), '#'));
    let fields = split_trimmed(&body, ',');
    if fields.len() < 3 {
        return None;
    }
    let key = &fields[1];
    proof {
        assert(texts(fields@)[1] == key@);
        assert(texts(fields@)[0] == fields@[0]@);
        assert(texts(fields@)[2] == fields@[2]@);
    }
    if key.len() == 0 || (key.len() == 1 && key[0] == '_') {
        proof {
            if key.len() == 1 {
                assert(key@ =~= seq!['_']);
            }
        }
        return None;
    }
    proof {
        if key@ == seq!['_'] {
            assert(key@[0] == '_');
        }
    }
    let mut tokens = tokenize(&substitute(&fields[0], variables));
    if tokens.len() == 1 {
        let modifier = normalize_key(to_text(&tokens[0]).as_str());
        let trigger = normalize_key(to_text(key).as_str());
        proof {
            assert(texts(tokens@)[0] == tokens@[0]@);
        }
        if equal(modifier.as_str(), trigger.as_str()) {
            tokens = Vec::new();
            proof {
                assert(texts(tokens@) =~= Seq::<Seq<char>>::empty());
            }
        }
    }
    let arguments = join_from(&fields, 3, &to_chars(", "));
    let mut command = slice(&fields[2], 0, fields[2].len());
    proof {
        assert(command@ =~= fields@[2]@);
    }
    if arguments.len() > 0 {
        command.push(' ');
        append(&mut command, &arguments);
        proof {
            assert(command@ =~= fields@[2]@ + seq![' '] + arguments@);
        }
    }
    let bind = Keybind {
        mods: to_strings(&tokens),
        key: to_text(key),
        command: to_text(&command),
        description: None,
    };
    proof {
        lemma_bind_well_formed(content@, assignments(variables@));
    }
    Some(bind)
}

/// Every modifier is a run of characters that are no separators, and not
/// empty.
pub proof fn lemma_tokens_are_runs(s: Seq<char>)
    ensures
        forall|i: int|
            0 <= i < modifier_tokens(s).len() ==> {
                let token = #[trigger] modifier_tokens(s)[i];
                token.len() > 0 && forall|j: int| 0 <= j < token.len() ==> !is_separator(token[j])
            },
{
    lemma_token_state(s);
}

proof fn lemma_token_state(s: Seq<char>)
    ensures
        forall|i: int|
            0 <= i < token_state(s).0.len() ==> {
                let token = #[trigger] token_state(s).0[i];
                token.len() > 0 && forall|j: int| 0 <= j < token.len() ==> !is_separator(token[j])
            },
        forall|j: int| 0 <= j < token_state(s).1.len() ==> !is_separator(token_state(s).1[j]),
    decreases s.len(),
{
    if s.len() > 0 {
        lemma_token_state(s.drop_last());
        let (closed, open) = token_state(s.drop_last());
        assert forall|i: int| 0 <= i < token_state(s).0.len() implies {
            let token = #[trigger] token_state(s).0[i];
            token.len() > 0 && forall|j: int| 0 <= j < token.len() ==> !is_separator(token[j])
        } by {
            if i < closed.len() {
                assert(token_state(s).0[i] == closed[i]);
            }
        }
    }
}

/// A bind directive declares a binding only with a key that is not blank:
/// the key is the second field, trimmed, as it is written; and no modifier
/// is blank.
pub proof fn lemma_bind_well_formed(content: Seq<char>, variables: Seq<(Seq<char>, Seq<char>)>)
    ensures
        match bind_of(content, variables) {
            Some(bind) => {
                &&& bind_fields(content).len() >= 3
                &&& bind.key == bind_fields(content)[1]
                &&& bind.key == trimmed(fields_of_body(content)[1])
                &&& bind.well_formed()
            },
            None => true,
        },
{
    let fields = bind_fields(content);
    if fields.len() >= 3 && !is_blank_token(fields[1]) {
        let expression = substituted(fields[0], variables);
        lemma_tokens_are_runs(expression);
        let bind = bind_of(content, variables).unwrap();
        assert forall|i: int| 0 <= i < bind.mods.len() implies !is_blank_token(
            #[trigger] bind.mods[i],
        ) by {
            let token = modifier_tokens(expression)[i];
            assert(bind.mods[i] == token);
            if token == seq!['_'] {
                assert(is_separator(token[0]));
            }
        }
    }
}

// ---------------------------------------------------------------------------
// Lines
// ---------------------------------------------------------------------------

/// What one line asks for.
#[derive(Debug)]
pub enum Directive {
    /// Nothing: an empty line, a comment, or a line of no known shape.
    Skip,
    /// `$NAME = VALUE`.
    Assign { name: String, value: String },
    /// `source = TARGET`.
    Include { target: String },
    /// `bind.. = CONTENT`.
    Bind { content: String },
}

/// The mathematical view of a [`Directive`].
pub enum DirectiveView {
    Skip,
    Assign { name: Seq<char>, value: Seq<char> },
    Include { target: Seq<char> },
    Bind { content: Seq<char> },
}

impl View for Directive {
    type V = DirectiveView;

    open spec fn view(&self) -> DirectiveView {
        match self {
            Directive::Skip => DirectiveView::Skip,
            Directive::Assign { name, value } => DirectiveView::Assign {
                name: name@,
                value: value@,
            },
            Directive::Include { target } => DirectiveView::Include { target: target@ },
            Directive::Bind { content } => DirectiveView::Bind { content: content@ },
        }
    }
}

/// The directive that a line stands for, given what the three searches
/// found in it. The first shape that matches decides: an assignment before
/// an include, an include before a bind. The value of an assignment and the
/// target of an include are trimmed.
pub open spec fn directive_of(
    variable: Option<Found>,
    source: Option<Found>,
    bind: Option<Found>,
) -> DirectiveView {
    if group_of(variable, 1).is_some() && group_of(variable, 2).is_some() {
        DirectiveView::Assign {
            name: group_of(variable, 1).unwrap(),
            value: trimmed(group_of(variable, 2).unwrap()),
        }
    } else if group_of(source, 1).is_some() {
        DirectiveView::Include { target: trimmed(group_of(source, 1).unwrap()) }
    } else if group_of(bind, 1).is_some() {
        DirectiveView::Bind { content: group_of(bind, 1).unwrap() }
    } else {
        DirectiveView::Skip
    }
}

/// The directive that `line` stands for. The line is trimmed; an empty line
/// and a line that begins with `#` ask for nothing.
pub open spec fn line_directive(line: Seq<char>) -> DirectiveView {
    let text = trimmed(line);
    if text.len() == 0 || text[0] == '#' {
        DirectiveView::Skip
    } else {
        directive_of(
            first_match(VARIABLE_LINE@, text),
            first_match(SOURCE_LINE@, text),
            first_match(BIND_LINE@, text),
        )
    }
}

/// Group `i` of an optional search result.
fn group_text(found: &Option<Captured>, i: usize) -> (text: Option<Vec<char>>)
    ensures
        match text {
            Some(t) => group_of(opt_found(*found), i as int) == Some(t@),
            None => group_of(opt_found(*found), i as int).is_none(),
        },
{
    match found {
        Some(f) => f.group(i),
        None => None,
    }
}

/// Decides what a line asks for from what the searches for the three line
/// shapes found in it.
pub fn classify(
    variable: &Option<Captured>,
    source: &Option<Captured>,
    bind: &Option<Captured>,
) -> (directive: Directive)
    ensures
        directive@ == directive_of(opt_found(*variable), opt_found(*source), opt_found(*bind)),
{
    if let Some(name) = group_text(variable, 1) {
        if let Some(value) = group_text(variable, 2) {
            return Directive::Assign { name: to_text(&name), value: to_text(&trim(&value)) };
        }
    }
    if let Some(target) = group_text(source, 1) {
        return Directive::Include { target: to_text(&trim(&target)) };
    }
    if let Some(content) = group_text(bind, 1) {
        return Directive::Bind { content: to_text(&content) };
    }
    Directive::Skip
}

/// The three line shapes, compiled.
struct Grammar {
    variable: Matcher,
    source: Matcher,
    bind: Matcher,
}

impl Grammar {
    spec fn ready(&self) -> bool {
        &&& self.variable.pattern() == VARIABLE_LINE@
        &&& self.source.pattern() == SOURCE_LINE@
        &&& self.bind.pattern() == BIND_LINE@
    }

    fn new() -> (grammar: Grammar)
        ensures
            grammar.ready(),
    {
        Grammar {
            variable: Matcher::compile(VARIABLE_LINE),
            source: Matcher::compile(SOURCE_LINE),
            bind: Matcher::compile(BIND_LINE),
        }
    }

    /// What `line` asks for.
    fn read(&self, line: &str) -> (directive: Directive)
        requires
            self.ready(),
        ensures
            directive@ == line_directive(line@),
    {
        let text = trim(&to_chars(line));
        if text.len() == 0 || text[0] == '#' {
            return Directive::Skip;
        }
        let text = to_text(&text);
        let variable = self.variable.captures(text.as_str());
        let source = self.source.captures(text.as_str());
        let bind = self.bind.captures(text.as_str());
        classify(&variable, &source, &bind)
    }
}

/// Where a scan of lines stopped: the cursor behind the last line read, and
/// the target of the include directive that stopped it, if one did.
pub struct Step {
    pub next: usize,
    pub source: Option<String>,
}

/// The state of a scan: the variables, the bindings, the cursor, and the
/// target of the include directive at which the scan stopped.
pub struct Scan {
    pub variables: Seq<(Seq<char>, Seq<char>)>,
    pub binds: Seq<KeybindView>,
    pub next: int,
    pub source: Option<Seq<char>>,
}

/// The bindings after a bind directive with this content.
pub open spec fn bound(
    binds: Seq<KeybindView>,
    content: Seq<char>,
    variables: Seq<(Seq<char>, Seq<char>)>,
) -> Seq<KeybindView> {
    match bind_of(content, variables) {
        Some(bind) => binds.push(bind),
        None => binds,
    }
}

/// A scan of `lines` from cursor `i` on, line by line: an assignment
/// changes the variables, a bind directive is read with the variables
/// assigned before it and adds its binding, an include directive stops the
/// scan behind its line. Without an include directive the scan ends behind
/// the last line.
pub open spec fn scanned(
    lines: Seq<Seq<char>>,
    i: int,
    variables: Seq<(Seq<char>, Seq<char>)>,
    binds: Seq<KeybindView>,
) -> Scan
    decreases lines.len() - i,
{
    if 0 <= i < lines.len() {
        match line_directive(lines[i]) {
            DirectiveView::Skip => scanned(lines, i + 1, variables, binds),
            DirectiveView::Assign { name, value } => scanned(
                lines,
                i + 1,
                assigned(variables, name, value),
                binds,
            ),
            DirectiveView::Include { target } => Scan {
                variables,
                binds,
                next: i + 1,
                source: Some(target),
            },
            DirectiveView::Bind { content } => scanned(
                lines,
                i + 1,
                variables,
                bound(binds, content, variables),
            ),
        }
    } else {
        Scan { variables, binds, next: i, source: None }
    }
}

/// Reads lines from cursor `start` on with a compiled grammar.
fn scan(
    grammar: &Grammar,
    lines: &Vec<String>,
    start: usize,
    ctx: &mut HyprContext,
    binds: &mut Vec<Keybind>,
) -> (step: Step)
    requires
        grammar.ready(),
    ensures
        ({
            let scan = scanned(
                strings(lines@),
                start as int,
                old(ctx)@.variables,
                keybinds(old(binds)@),
            );
            &&& final(ctx)@.variables == scan.variables
            &&& keybinds(final(binds)@) == scan.binds
            &&& step.next as int == scan.next
            &&& opt_text(step.source) == scan.source
        }),
        final(ctx)@.visited == old(ctx)@.visited,
        start <= lines.len() ==> start <= step.next <= lines.len(),
        step.source.is_some() ==> start < step.next,
        old(ctx)@.well_formed() ==> final(ctx)@.well_formed(),
        old(binds).len() <= final(binds).len(),
        forall|k: int| 0 <= k < old(binds).len() ==> final(binds)[k] == old(binds)[k],
        forall|k: int|
            old(binds).len() <= k < final(binds).len() ==> (#[trigger] final(binds)[k])@.well_formed(),
{
    let mut i: usize = start;
    while i < lines.len()
        invariant
            start <= i,
            start <= lines.len() ==> i <= lines.len(),
            old(ctx)@.well_formed() ==> ctx@.well_formed(),
            old(binds).len() <= binds.len(),
            forall|k: int| 0 <= k < old(binds).len() ==> binds[k] == old(binds)[k],
            forall|k: int| old(binds).len() <= k < binds.len() ==> (#[trigger] binds[k])@.well_formed(),
            grammar.ready(),
            ctx@.visited == old(ctx)@.visited,
            scanned(strings(lines@), start as int, old(ctx)@.variables, keybinds(old(binds)@))
                == scanned(strings(lines@), i as int, ctx@.variables, keybinds(binds@)),
        decreases lines.len() - i,
    {
        proof {
            assert(strings(lines@)[i as int] == lines@[i as int]@);
        }
        match grammar.read(lines[i].as_str()) {
            Directive::Skip => {},
            Directive::Assign { name, value } => {
                ctx.assign(name, value);
            },
            Directive::Include { target } => {
                return Step { next: i + 1, source: Some(target) };
            },
            Directive::Bind { content } => {
                match parse_bind(content.as_str(), &ctx.variables) {
                    Some(bind) => {
                        proof {
                            assert(keybinds(binds@.push(bind)) =~= keybinds(binds@).push(bind@));
                        }
                        binds.push(bind);
                    },
                    None => {},
                }
            },
        }
        i += 1;
    }
    Step { next: i, source: None }
}

/// Reads the lines of one file from cursor `start` on, up to and including
/// the next include directive. Bindings are appended to `binds`, assignments
/// change `ctx`. `source` is the target of the directive at which the scan
/// stopped; the file is done when it is `None`.
pub fn scan_lines(
    lines: &Vec<String>,
    start: usize,
    ctx: &mut HyprContext,
    binds: &mut Vec<Keybind>,
) -> (step: Step)
    ensures
        ({
            let scan = scanned(
                strings(lines@),
                start as int,
                old(ctx)@.variables,
                keybinds(old(binds)@),
            );
            &&& final(ctx)@.variables == scan.variables
            &&& keybinds(final(binds)@) == scan.binds
            &&& step.next as int == scan.next
            &&& opt_text(step.source) == scan.source
        }),
        final(ctx)@.visited == old(ctx)@.visited,
        start <= lines.len() ==> start <= step.next <= lines.len(),
        step.source.is_some() ==> start < step.next,
        old(ctx)@.well_formed() ==> final(ctx)@.well_formed(),
        old(binds).len() <= final(binds).len(),
        forall|k: int| 0 <= k < old(binds).len() ==> final(binds)[k] == old(binds)[k],
        forall|k: int|
            old(binds).len() <= k < final(binds).len() ==> (#[trigger] final(binds)[k])@.well_formed(),
{
    let grammar = Grammar::new();
    scan(&grammar, lines, start, ctx, binds)
}

/// The files that an include directive names: what the wildcard expansion
/// of the resolved target found, in the order found; the resolved target
/// itself where the target is no wildcard pattern that can be expanded.
pub open spec fn included(resolved: Seq<char>, matches: Option<Seq<Seq<char>>>) -> Seq<Seq<char>> {
    match matches {
        Some(found) => found,
        None => seq![resolved],
    }
}

/// The views of an optional list of strings.
pub open spec fn opt_strings(items: Option<Vec<String>>) -> Option<Seq<Seq<char>>> {
    match items {
        Some(v) => Some(strings(v@)),
        None => None,
    }
}

/// A scan keeps the bindings that it was given and adds to them; every
/// binding that it adds is well formed: its key is not blank, and none of
/// its modifiers is.
pub proof fn lemma_scanned_well_formed(
    lines: Seq<Seq<char>>,
    i: int,
    variables: Seq<(Seq<char>, Seq<char>)>,
    binds: Seq<KeybindView>,
)
    ensures
        binds.len() <= scanned(lines, i, variables, binds).binds.len(),
        scanned(lines, i, variables, binds).binds.take(binds.len() as int) == binds,
        forall|k: int|
            binds.len() <= k < scanned(lines, i, variables, binds).binds.len() ==> (
            #[trigger] scanned(lines, i, variables, binds).binds[k]).well_formed(),
    decreases lines.len() - i,
{
    if 0 <= i < lines.len() {
        match line_directive(lines[i]) {
            DirectiveView::Skip => {
                lemma_scanned_well_formed(lines, i + 1, variables, binds);
            },
            DirectiveView::Assign { name, value } => {
                lemma_scanned_well_formed(lines, i + 1, assigned(variables, name, value), binds);
            },
            DirectiveView::Include { target } => {
                assert(binds.take(binds.len() as int) =~= binds);
            },
            DirectiveView::Bind { content } => {
                lemma_bind_well_formed(content, variables);
                let more = bound(binds, content, variables);
                lemma_scanned_well_formed(lines, i + 1, variables, more);
                let all = scanned(lines, i + 1, variables, more).binds;
                assert(all.take(binds.len() as int) =~= all.take(more.len() as int).take(
                    binds.len() as int,
                ));
                assert(more.take(binds.len() as int) =~= binds);
                assert forall|k: int| binds.len() <= k < all.len() implies (
                #[trigger] all[k]).well_formed() by {
                    if k < more.len() {
                        assert(all[k] == all.take(more.len() as int)[k]);
                    }
                }
            },
        }
    } else {
        assert(binds.take(binds.len() as int) =~= binds);
    }
}

// ---------------------------------------------------------------------------
// Files that source files
// ---------------------------------------------------------------------------

/// What is known of the file at a path.
#[derive(Debug)]
pub enum FileEntry {
    /// There is no such file.
    Missing,
    /// The file is there and cannot be opened.
    Unreadable,
    /// The lines of the file.
    Lines(Vec<String>),
}

/// The mathematical view of a [`FileEntry`].
pub enum FileView {
    Missing,
    Unreadable,
    Lines(Seq<Seq<char>>),
}

impl View for FileEntry {
    type V = FileView;

    open spec fn view(&self) -> FileView {
        match self {
            FileEntry::Missing => FileView::Missing,
            FileEntry::Unreadable => FileView::Unreadable,
            FileEntry::Lines(lines) => FileView::Lines(strings(lines@)),
        }
    }
}

/// What has been learnt of the disk: files by path, and for each wildcard
/// pattern that was expanded the paths that it matched, or `None` where the
/// pattern cannot be expanded. Of two entries with one key the first counts.
pub struct Disk {
    pub files: Vec<(String, FileEntry)>,
    pub matches: Vec<(String, Option<Vec<String>>)>,
}

/// Something that a traversal needs to know and the [`Disk`] does not hold.
#[derive(Debug)]
pub enum Request {
    /// The file at this path.
    File(String),
    /// The paths that this wildcard pattern matches.
    Matches(String),
}

/// The mathematical view of a [`Request`].
pub enum RequestView {
    File(Seq<char>),
    Matches(Seq<char>),
}

impl View for Request {
    type V = RequestView;

    open spec fn view(&self) -> RequestView {
        match self {
            Request::File(path) => RequestView::File(path@),
            Request::Matches(pattern) => RequestView::Matches(pattern@),
        }
    }
}

/// The view of an optional request.
pub open spec fn opt_request(request: Option<Request>) -> Option<RequestView> {
    match request {
        Some(r) => Some(r@),
        None => None,
    }
}

/// What a traversal reads from: the disk as far as it is known, the home
/// directory and the environment.
pub struct World {
    pub files: Seq<(Seq<char>, FileView)>,
    pub matches: Seq<(Seq<char>, Option<Seq<Seq<char>>>)>,
    pub home: Option<Seq<char>>,
    pub env: Seq<(Seq<char>, Seq<char>)>,
}

/// The views of the files of a disk.
pub open spec fn file_views(files: Seq<(String, FileEntry)>) -> Seq<(Seq<char>, FileView)> {
    files.map_values(|e: (String, FileEntry)| (e.0@, e.1@))
}

/// The views of the expansions of a disk.
pub open spec fn match_views(matches: Seq<(String, Option<Vec<String>>)>) -> Seq<
    (Seq<char>, Option<Seq<Seq<char>>>),
> {
    matches.map_values(|e: (String, Option<Vec<String>>)| (e.0@, opt_strings(e.1)))
}

/// The world that a disk, a home directory and an environment make.
pub open spec fn world_of(disk: Disk, home: Option<String>, env: Vec<(String, String)>) -> World {
    World {
        files: file_views(disk.files@),
        matches: match_views(disk.matches@),
        home: opt_text(home),
        env: assignments(env@),
    }
}

/// What is known of the file at `path`, looking from entry `from` on.
pub open spec fn file_from(files: Seq<(Seq<char>, FileView)>, path: Seq<char>, from: int) -> Option<
    FileView,
>
    decreases files.len() - from,
{
    if from < 0 || from >= files.len() {
        None
    } else if files[from].0 == path {
        Some(files[from].1)
    } else {
        file_from(files, path, from + 1)
    }
}

/// What is known of the expansion of `pattern`, looking from entry `from`
/// on.
pub open spec fn matches_from(
    matches: Seq<(Seq<char>, Option<Seq<Seq<char>>>)>,
    pattern: Seq<char>,
    from: int,
) -> Option<Option<Seq<Seq<char>>>>
    decreases matches.len() - from,
{
    if from < 0 || from >= matches.len() {
        None
    } else if matches[from].0 == pattern {
        Some(matches[from].1)
    } else {
        matches_from(matches, pattern, from + 1)
    }
}

impl Disk {
    /// A disk of which nothing is known.
    pub fn new() -> (disk: Disk)
        ensures
            disk.files.len() == 0,
            disk.matches.len() == 0,
    {
        Disk { files: Vec::new(), matches: Vec::new() }
    }

    /// What is known of the file at `path`.
    pub fn file(&self, path: &str) -> (entry: Option<&FileEntry>)
        ensures
            match entry {
                Some(e) => file_from(file_views(self.files@), path@, 0) == Some(e@),
                None => file_from(file_views(self.files@), path@, 0).is_none(),
            },
    {
        let mut i: usize = 0;
        while i < self.files.len()
            invariant
                i <= self.files.len(),
                file_from(file_views(self.files@), path@, 0) == file_from(
                    file_views(self.files@),
                    path@,
                    i as int,
                ),
            decreases self.files.len() - i,
        {
            proof {
                assert(file_views(self.files@)[i as int] == (
                    self.files@[i as int].0@,
                    self.files@[i as int].1@,
                ));
            }
            if equal(self.files[i].0.as_str(), path) {
                return Some(&self.files[i].1);
            }
            i += 1;
        }
        None
    }

    /// What is known of the expansion of `pattern`.
    pub fn expansion(&self, pattern: &str) -> (entry: Option<&Option<Vec<String>>>)
        ensures
            match entry {
                Some(e) => matches_from(match_views(self.matches@), pattern@, 0) == Some(
                    opt_strings(*e),
                ),
                None => matches_from(match_views(self.matches@), pattern@, 0).is_none(),
            },
    {
        let mut i: usize = 0;
        while i < self.matches.len()
            invariant
                i <= self.matches.len(),
                matches_from(match_views(self.matches@), pattern@, 0) == matches_from(
                    match_views(self.matches@),
                    pattern@,
                    i as int,
                ),
            decreases self.matches.len() - i,
        {
            proof {
                assert(match_views(self.matches@)[i as int] == (
                    self.matches@[i as int].0@,
                    opt_strings(self.matches@[i as int].1),
                ));
            }
            if equal(self.matches[i].0.as_str(), pattern) {
                return Some(&self.matches[i].1);
            }
            i += 1;
        }
        None
    }
}

/// The state of a traversal: variables, files entered, bindings, and what
/// the traversal stopped for, if it did.
pub struct Walk {
    pub variables: Seq<(Seq<char>, Seq<char>)>,
    pub visited: Seq<Seq<char>>,
    pub binds: Seq<KeybindView>,
    pub wanted: Option<RequestView>,
}

/// A scan that stops at an include directive has read at least one line,
/// and no scan reads beyond the last line.
pub proof fn lemma_scan_advances(
    lines: Seq<Seq<char>>,
    i: int,
    variables: Seq<(Seq<char>, Seq<char>)>,
    binds: Seq<KeybindView>,
)
    ensures
        scanned(lines, i, variables, binds).source.is_some() ==> 0 <= i < scanned(
            lines,
            i,
            variables,
            binds,
        ).next <= lines.len(),
    decreases lines.len() - i,
{
    if 0 <= i < lines.len() {
        match line_directive(lines[i]) {
            DirectiveView::Skip => {
                lemma_scan_advances(lines, i + 1, variables, binds);
            },
            DirectiveView::Assign { name, value } => {
                lemma_scan_advances(lines, i + 1, assigned(variables, name, value), binds);
            },
            DirectiveView::Include { target } => {},
            DirectiveView::Bind { content } => {
                lemma_scan_advances(lines, i + 1, variables, bound(binds, content, variables));
            },
        }
    }
}

/// The traversal of the file at `path`.
///
/// A file that was entered before, under any spelling of its path, is
/// passed over at once. A file of which nothing is known stops the
/// traversal with a request for it, and a file that is missing is passed
/// over. Else the file is entered, and its lines, if it can be read, are
/// traversed.
/// `depth` bounds how deep files may be nested; a traversal enters every
/// file at most once, so the number of files known is deep enough.
pub open spec fn walked_file(world: World, path: Seq<char>, walk: Walk, depth: nat) -> Walk
    decreases depth, 0int, 0int,
{
    if walk.visited.contains(normal_path(path)) {
        walk
    } else {
        match file_from(world.files, path, 0) {
            None => Walk { wanted: Some(RequestView::File(path)), ..walk },
            Some(FileView::Missing) => walk,
            Some(entry) => {
                let inside = Walk { visited: walk.visited.push(normal_path(path)), ..walk };
                match entry {
                    FileView::Lines(lines) => if depth > 0 {
                        walked_lines(world, lines, 0, inside, (depth - 1) as nat)
                    } else {
                        inside
                    },
                    _ => inside,
                }
            },
        }
    }
}

/// The traversal of the lines of a file from cursor `i` on: the lines are
/// scanned up to the next include directive, its target is resolved and
/// expanded, the files that it names are traversed in order, and the
/// traversal goes on behind the directive. An expansion that is not known
/// stops the traversal with a request for it.
pub open spec fn walked_lines(
    world: World,
    lines: Seq<Seq<char>>,
    i: int,
    walk: Walk,
    depth: nat,
) -> Walk
    decreases depth, 2int, lines.len() - i,
{
    let scan = scanned(lines, i, walk.variables, walk.binds);
    let after = Walk { variables: scan.variables, binds: scan.binds, ..walk };
    match scan.source {
        None => after,
        Some(target) => {
            let pattern = resolved(target, world.home, world.env);
            match matches_from(world.matches, pattern, 0) {
                None => Walk { wanted: Some(RequestView::Matches(pattern)), ..after },
                Some(found) => {
                    let back = walked_targets(world, included(pattern, found), 0, after, depth);
                    if back.wanted.is_some() {
                        back
                    } else {
                        proof {
                            lemma_scan_advances(lines, i, walk.variables, walk.binds);
                        }
                        walked_lines(world, lines, scan.next, back, depth)
                    }
                },
            }
        },
    }
}

/// The traversal of the files at `targets[k..]`, one after the other, until
/// one stops it.
pub open spec fn walked_targets(
    world: World,
    targets: Seq<Seq<char>>,
    k: int,
    walk: Walk,
    depth: nat,
) -> Walk
    decreases depth, 1int, targets.len() - k,
{
    if k < 0 || k >= targets.len() {
        walk
    } else {
        let back = walked_file(world, targets[k], walk, depth);
        if back.wanted.is_some() {
            back
        } else {
            walked_targets(world, targets, k + 1, back, depth)
        }
    }
}

/// The number of files known whose path, in its normal spelling, was not
/// entered.
pub open spec fn unvisited(files: Seq<(Seq<char>, FileView)>, visited: Seq<Seq<char>>) -> nat
    decreases files.len(),
{
    if files.len() == 0 {
        0
    } else if visited.contains(normal_path(files.last().0)) {
        unvisited(files.drop_last(), visited)
    } else {
        unvisited(files.drop_last(), visited) + 1
    }
}

/// Whether every path of `before` is in `after`.
pub open spec fn grown(before: Seq<Seq<char>>, after: Seq<Seq<char>>) -> bool {
    forall|p: Seq<char>| before.contains(p) ==> after.contains(p)
}

/// Entering more files leaves no more files to enter.
pub proof fn lemma_unvisited_shrinks(
    files: Seq<(Seq<char>, FileView)>,
    before: Seq<Seq<char>>,
    after: Seq<Seq<char>>,
)
    requires
        grown(before, after),
    ensures
        unvisited(files, after) <= unvisited(files, before) <= files.len(),
    decreases files.len(),
{
    if files.len() > 0 {
        lemma_unvisited_shrinks(files.drop_last(), before, after);
    }
}

/// Entering a file that is known and was not entered leaves fewer files to
/// enter.
pub proof fn lemma_unvisited_after_entering(
    files: Seq<(Seq<char>, FileView)>,
    visited: Seq<Seq<char>>,
    path: Seq<char>,
)
    requires
        file_from(files, path, 0).is_some(),
        !visited.contains(normal_path(path)),
    ensures
        unvisited(files, visited.push(normal_path(path))) < unvisited(files, visited),
        grown(visited, visited.push(normal_path(path))),
{
    let after = visited.push(normal_path(path));
    assert(after[visited.len() as int] == normal_path(path));
    assert forall|p: Seq<char>| visited.contains(p) implies after.contains(p) by {
        let k = choose|k: int| 0 <= k < visited.len() && visited[k] == p;
        assert(after[k] == p);
    }
    lemma_file_known(files, path, 0);
    let at = choose|at: int| 0 <= at < files.len() && files[at].0 == path;
    lemma_unvisited_strict(files, visited, after, at);
}

proof fn lemma_file_known(files: Seq<(Seq<char>, FileView)>, path: Seq<char>, from: int)
    requires
        file_from(files, path, from).is_some(),
    ensures
        exists|at: int| 0 <= at < files.len() && files[at].0 == path,
    decreases files.len() - from,
{
    if 0 <= from < files.len() && files[from].0 != path {
        lemma_file_known(files, path, from + 1);
    }
}

proof fn lemma_unvisited_strict(
    files: Seq<(Seq<char>, FileView)>,
    before: Seq<Seq<char>>,
    after: Seq<Seq<char>>,
    at: int,
)
    requires
        grown(before, after),
        0 <= at < files.len(),
        !before.contains(normal_path(files[at].0)),
        after.contains(normal_path(files[at].0)),
    ensures
        unvisited(files, after) < unvisited(files, before),
    decreases files.len(),
{
    if at == files.len() - 1 {
        lemma_unvisited_shrinks(files.drop_last(), before, after);
    } else {
        lemma_unvisited_strict(files.drop_last(), before, after, at);
    }
}

/// Whether the world does not hold what `wanted` asks for.
pub open spec fn is_unknown(world: World, wanted: Option<RequestView>) -> bool {
    match wanted {
        Some(RequestView::File(path)) => file_from(world.files, path, 0).is_none(),
        Some(RequestView::Matches(pattern)) => matches_from(world.matches, pattern, 0).is_none(),
        None => true,
    }
}

/// Cycle safety: a file that was entered is passed over when a traversal
/// comes to it again, under whatever spelling of its path and whatever the
/// disk holds of it. Nothing is read, nothing is asked for and nothing
/// changes; the traversal goes on behind the directive that named the file.
pub proof fn lemma_entered_file_is_passed_over(
    world: World,
    path: Seq<char>,
    walk: Walk,
    depth: nat,
)
    requires
        walk.visited.contains(normal_path(path)),
    ensures
        walked_file(world, path, walk, depth) == walk,
{
}

/// A file that is missing is passed over.
pub proof fn lemma_missing_file_is_passed_over(
    world: World,
    path: Seq<char>,
    walk: Walk,
    depth: nat,
)
    requires
        file_from(world.files, path, 0) == Some(FileView::Missing),
    ensures
        walked_file(world, path, walk, depth) == walk,
{
}

/// The depth is no more than a bound: with at least one level for every
/// file known that was not entered, one level more changes nothing. The
/// files entered are only added to.
pub proof fn lemma_deeper_file(world: World, path: Seq<char>, walk: Walk, depth: nat)
    requires
        unvisited(world.files, walk.visited) <= depth,
    ensures
        walked_file(world, path, walk, depth) == walked_file(world, path, walk, depth + 1),
        grown(walk.visited, walked_file(world, path, walk, depth).visited),
    decreases depth, 0int, 0int,
{
    match file_from(world.files, path, 0) {
        None => {},
        Some(FileView::Missing) => {},
        Some(entry) => {
            if !walk.visited.contains(normal_path(path)) {
                let inside = Walk { visited: walk.visited.push(normal_path(path)), ..walk };
                lemma_unvisited_after_entering(world.files, walk.visited, path);
                match entry {
                    FileView::Lines(lines) => {
                        lemma_deeper_lines(world, lines, 0, inside, (depth - 1) as nat);
                    },
                    _ => {},
                }
            }
        },
    }
}

/// As [`lemma_deeper_file`], for the lines of a file.
pub proof fn lemma_deeper_lines(
    world: World,
    lines: Seq<Seq<char>>,
    i: int,
    walk: Walk,
    depth: nat,
)
    requires
        unvisited(world.files, walk.visited) <= depth,
    ensures
        walked_lines(world, lines, i, walk, depth) == walked_lines(
            world,
            lines,
            i,
            walk,
            depth + 1,
        ),
        grown(walk.visited, walked_lines(world, lines, i, walk, depth).visited),
    decreases depth, 2int, lines.len() - i,
{
    let scan = scanned(lines, i, walk.variables, walk.binds);
    let after = Walk { variables: scan.variables, binds: scan.binds, ..walk };
    match scan.source {
        None => {},
        Some(target) => {
            let pattern = resolved(target, world.home, world.env);
            match matches_from(world.matches, pattern, 0) {
                None => {},
                Some(found) => {
                    let targets = included(pattern, found);
                    lemma_deeper_targets(world, targets, 0, after, depth);
                    let back = walked_targets(world, targets, 0, after, depth);
                    if back.wanted.is_none() {
                        lemma_scan_advances(lines, i, walk.variables, walk.binds);
                        lemma_unvisited_shrinks(world.files, walk.visited, back.visited);
                        lemma_deeper_lines(world, lines, scan.next, back, depth);
                    }
                },
            }
        },
    }
}

/// As [`lemma_deeper_file`], for a list of files.
pub proof fn lemma_deeper_targets(
    world: World,
    targets: Seq<Seq<char>>,
    k: int,
    walk: Walk,
    depth: nat,
)
    requires
        unvisited(world.files, walk.visited) <= depth,
    ensures
        walked_targets(world, targets, k, walk, depth) == walked_targets(
            world,
            targets,
            k,
            walk,
            depth + 1,
        ),
        grown(walk.visited, walked_targets(world, targets, k, walk, depth).visited),
    decreases depth, 1int, targets.len() - k,
{
    if 0 <= k < targets.len() {
        lemma_deeper_file(world, targets[k], walk, depth);
        let back = walked_file(world, targets[k], walk, depth);
        if back.wanted.is_none() {
            lemma_unvisited_shrinks(world.files, walk.visited, back.visited);
            lemma_deeper_targets(world, targets, k + 1, back, depth);
        }
    }
}

/// One level for every file known is deep enough: any greater depth gives
/// the same traversal.
pub proof fn lemma_depth_is_enough(world: World, path: Seq<char>, walk: Walk, depth: nat)
    requires
        depth >= world.files.len(),
    ensures
        walked_file(world, path, walk, depth) == walked_file(
            world,
            path,
            walk,
            world.files.len(),
        ),
    decreases depth,
{
    if depth > world.files.len() {
        lemma_unvisited_shrinks(world.files, walk.visited, walk.visited);
        lemma_deeper_file(world, path, walk, (depth - 1) as nat);
        lemma_depth_is_enough(world, path, walk, (depth - 1) as nat);
    }
}

/// The state of a traversal in progress.
pub open spec fn walk_of(ctx: HyprContext, binds: Vec<Keybind>, wanted: Option<Request>) -> Walk {
    Walk {
        variables: ctx@.variables,
        visited: ctx@.visited,
        binds: keybinds(binds@),
        wanted: opt_request(wanted),
    }
}

/// What a traversal works with.
struct Walker<'a> {
    grammar: Grammar,
    references: Matcher,
    disk: &'a Disk,
    home: &'a Option<String>,
    env: &'a Vec<(String, String)>,
}

impl<'a> Walker<'a> {
    spec fn ready(&self) -> bool {
        self.grammar.ready() && self.references.pattern() == ENV_REFERENCE@
    }

    spec fn world(&self) -> World {
        world_of(*self.disk, *self.home, *self.env)
    }

    /// Traverses the file at `path`.
    fn file(
        &self,
        path: &str,
        ctx: &mut HyprContext,
        binds: &mut Vec<Keybind>,
        Ghost(depth): Ghost<nat>,
    ) -> (wanted: Option<Request>)
        requires
            self.ready(),
            unvisited(self.world().files, old(ctx)@.visited) <= depth,
        ensures
            walk_of(*final(ctx), *final(binds), wanted) == walked_file(
                self.world(),
                path@,
                walk_of(*old(ctx), *old(binds), None),
                depth,
            ),
            grown(old(ctx)@.visited, final(ctx)@.visited),
            is_unknown(self.world(), opt_request(wanted)),
            old(ctx)@.well_formed() ==> final(ctx)@.well_formed(),
            old(binds).len() <= final(binds).len(),
            forall|k: int| 0 <= k < old(binds).len() ==> final(binds)[k] == old(binds)[k],
            forall|k: int|
                old(binds).len() <= k < final(binds).len() ==> (#[trigger] final(binds)[k])@.well_formed(),
        decreases depth, 0int, 0int,
    {
        if ctx.has_entered(path) {
            return None;
        }
        match self.disk.file(path) {
            None => Some(Request::File(to_text(&to_chars(path)))),
            Some(FileEntry::Missing) => None,
            Some(entry) => {
                let fresh = ctx.enter_file(path);
                proof {
                    assert(fresh);
                    lemma_unvisited_after_entering(
                        self.world().files,
                        old(ctx)@.visited,
                        path@,
                    );
                }
                match entry {
                    FileEntry::Lines(lines) => self.lines(
                        lines,
                        0,
                        ctx,
                        binds,
                        Ghost((depth - 1) as nat),
                    ),
                    _ => None,
                }
            },
        }
    }

    /// Traverses the lines of a file from cursor `i` on.
    fn lines(
        &self,
        lines: &Vec<String>,
        i: usize,
        ctx: &mut HyprContext,
        binds: &mut Vec<Keybind>,
        Ghost(depth): Ghost<nat>,
    ) -> (wanted: Option<Request>)
        requires
            self.ready(),
            unvisited(self.world().files, old(ctx)@.visited) <= depth,
        ensures
            walk_of(*final(ctx), *final(binds), wanted) == walked_lines(
                self.world(),
                strings(lines@),
                i as int,
                walk_of(*old(ctx), *old(binds), None),
                depth,
            ),
            grown(old(ctx)@.visited, final(ctx)@.visited),
            is_unknown(self.world(), opt_request(wanted)),
            old(ctx)@.well_formed() ==> final(ctx)@.well_formed(),
            old(binds).len() <= final(binds).len(),
            forall|k: int| 0 <= k < old(binds).len() ==> final(binds)[k] == old(binds)[k],
            forall|k: int|
                old(binds).len() <= k < final(binds).len() ==> (#[trigger] final(binds)[k])@.well_formed(),
        decreases depth, 2int, lines.len() - i,
    {
        let step = scan(&self.grammar, lines, i, ctx, binds);
        let target = match step.source {
            Some(target) => target,
            None => {
                return None;
            },
        };
        let pattern = resolve_with(&self.references, target.as_str(), self.home, self.env);
        let wanted = match self.disk.expansion(pattern.as_str()) {
            None => {
                return Some(Request::Matches(pattern));
            },
            Some(Some(found)) => self.targets(found, 0, ctx, binds, Ghost(depth)),
            Some(None) => {
                let mut single: Vec<String> = Vec::new();
                single.push(pattern);
                proof {
                    assert(strings(single@) =~= seq![pattern@]);
                }
                self.targets(&single, 0, ctx, binds, Ghost(depth))
            },
        };
        if wanted.is_some() {
            return wanted;
        }
        proof {
            lemma_unvisited_shrinks(self.world().files, old(ctx)@.visited, ctx@.visited);
        }
        self.lines(lines, step.next, ctx, binds, Ghost(depth))
    }

    /// Traverses the files at `targets[k..]`.
    fn targets(
        &self,
        targets: &Vec<String>,
        k: usize,
        ctx: &mut HyprContext,
        binds: &mut Vec<Keybind>,
        Ghost(depth): Ghost<nat>,
    ) -> (wanted: Option<Request>)
        requires
            self.ready(),
            unvisited(self.world().files, old(ctx)@.visited) <= depth,
        ensures
            walk_of(*final(ctx), *final(binds), wanted) == walked_targets(
                self.world(),
                strings(targets@),
                k as int,
                walk_of(*old(ctx), *old(binds), None),
                depth,
            ),
            grown(old(ctx)@.visited, final(ctx)@.visited),
            is_unknown(self.world(), opt_request(wanted)),
            old(ctx)@.well_formed() ==> final(ctx)@.well_formed(),
            old(binds).len() <= final(binds).len(),
            forall|k: int| 0 <= k < old(binds).len() ==> final(binds)[k] == old(binds)[k],
            forall|k: int|
                old(binds).len() <= k < final(binds).len() ==> (#[trigger] final(binds)[k])@.well_formed(),
        decreases depth, 1int, targets.len() - k,
    {
        if k >= targets.len() {
            return None;
        }
        proof {
            assert(strings(targets@)[k as int] == targets@[k as int]@);
        }
        let wanted = self.file(targets[k].as_str(), ctx, binds, Ghost(depth));
        if wanted.is_some() {
            return wanted;
        }
        proof {
            lemma_unvisited_shrinks(self.world().files, old(ctx)@.visited, ctx@.visited);
        }
        self.targets(targets, k + 1, ctx, binds, Ghost(depth))
    }
}

/// Reads the configuration at `path` together with the files that it
/// sources, as far as `disk` knows them. Bindings are appended to `binds` in
/// the order in which they are read, a sourced file in the place of its
/// directive; `ctx` carries the variables and the files entered. A file is
/// entered at most once, so files that source one another end the traversal
/// instead of repeating it.
///
/// The result is `None` when the traversal is complete. Else it names what
/// `disk` does not hold; the traversal has then stopped where it needed it,
/// and is to be made again, from the start, once `disk` holds it.
pub fn parse_hyprland_recursive(
    path: &str,
    disk: &Disk,
    home: &Option<String>,
    env: &Vec<(String, String)>,
    ctx: &mut HyprContext,
    binds: &mut Vec<Keybind>,
) -> (wanted: Option<Request>)
    ensures
        walk_of(*final(ctx), *final(binds), wanted) == walked_file(
            world_of(*disk, *home, *env),
            path@,
            walk_of(*old(ctx), *old(binds), None),
            disk.files.len() as nat,
        ),
        grown(old(ctx)@.visited, final(ctx)@.visited),
        is_unknown(world_of(*disk, *home, *env), opt_request(wanted)),
        old(ctx)@.well_formed() ==> final(ctx)@.well_formed(),
        old(binds).len() <= final(binds).len(),
        forall|k: int| 0 <= k < old(binds).len() ==> final(binds)[k] == old(binds)[k],
        forall|k: int|
            old(binds).len() <= k < final(binds).len() ==> (#[trigger] final(binds)[k])@.well_formed(),
{
    let walker = Walker {
        grammar: Grammar::new(),
        references: Matcher::compile(ENV_REFERENCE),
        disk,
        home,
        env,
    };
    proof {
        lemma_unvisited_shrinks(walker.world().files, ctx@.visited, ctx@.visited);
    }
    walker.file(path, ctx, binds, Ghost(disk.files.len() as nat))
}

} // verus!
