//! The continuation dialect: a trigger line, then indented command lines.
//!
//! ```text
//! # Description: close the focused window
//! super + {_,shift + }q
//!     bspc node -{c,k}
//! ```
//!
//! A trigger and its command may hold brace groups; each is expanded into
//! its alternatives and the results are paired by position.

use crate::models::{is_blank_token, keybinds, Keybind, KeybindView};
use crate::pattern::{first_match, Captured, Found, Matcher};
use crate::text::{
    append, free_of, joined, join_from, slice, split_trimmed, starts_with, strings, texts,
    to_chars, to_strings, to_text, trim, trim_trailing, trimmed, trimmed_fields,
    without_trailing,
};
use vstd::prelude::*;

verus! {

/// The regular expression of a brace group: an opening brace, one or more
/// characters that are not braces (group 1), a closing brace.
pub const BRACE_GROUP: &'static str = r"\{([^{}]+)\}";

/// The prefix of a comment line that describes the binding below it.
pub const DESCRIPTION_PREFIX: &'static str = "# Description:";

// ---------------------------------------------------------------------------
// Brace expansion
// ---------------------------------------------------------------------------

/// `items` without the placeholder `_`.
pub open spec fn without_placeholders(items: Seq<Seq<char>>) -> Seq<Seq<char>>
    decreases items.len(),
{
    if items.len() == 0 {
        items
    } else if items.last() == seq!['_'] {
        without_placeholders(items.drop_last())
    } else {
        without_placeholders(items.drop_last()).push(items.last())
    }
}

/// The alternatives that a group's interior offers: its comma-separated
/// fields, trimmed, without the placeholder `_`.
pub open spec fn alternatives(interior: Seq<char>) -> Seq<Seq<char>> {
    without_placeholders(trimmed_fields(interior, ','))
}

/// One text for each of `choices`: `before`, the choice, `after`.
pub open spec fn spliced(before: Seq<char>, choices: Seq<Seq<char>>, after: Seq<char>) -> Seq<
    Seq<char>,
> {
    choices.map_values(|choice: Seq<char>| before + choice + after)
}

/// The texts that take the place of a text in which a brace group was found:
/// one for each alternative of the group, in order. `None` where the match
/// has no group 1.
pub open spec fn group_variants(found: Found) -> Option<Seq<Seq<char>>> {
    match found.group(1) {
        Some(interior) => Some(spliced(found.before, alternatives(interior), found.after)),
        None => None,
    }
}

/// The variants of the leftmost brace group of `text`, if it has one.
pub open spec fn first_group_variants(text: Seq<char>) -> Option<Seq<Seq<char>>> {
    match first_match(BRACE_GROUP@, text) {
        Some(found) => group_variants(found),
        None => None,
    }
}

/// The brace expansion of `text`: a text without a brace group is its own
/// expansion; otherwise the expansions of the variants of its leftmost
/// group, in order.
///
/// A variant is shorter than the text that it comes from, by the two braces
/// at least. A variant that is not shorter is taken as it is and not
/// expanded further, so that every expansion ends.
pub open spec fn brace_expansion(text: Seq<char>) -> Seq<Seq<char>>
    decreases text.len() + 1, 0nat,
{
    match first_group_variants(text) {
        Some(variants) => expanded_all(variants, text.len()),
        None => seq![text],
    }
}

/// The expansions of `items`, one after the other; an item of `limit`
/// characters or more is taken as it is.
pub open spec fn expanded_all(items: Seq<Seq<char>>, limit: nat) -> Seq<Seq<char>>
    decreases limit, items.len() + 1,
{
    if items.len() == 0 {
        Seq::empty()
    } else if items.last().len() < limit {
        expanded_all(items.drop_last(), limit) + brace_expansion(items.last())
    } else {
        expanded_all(items.drop_last(), limit).push(items.last())
    }
}

/// The alternatives of a group's interior.
fn split_alternatives(interior: &Vec<char>) -> (out: Vec<Vec<char>>)
    ensures
        texts(out@) == alternatives(interior@),
{
    let parts = split_trimmed(interior, ',');
    let mut out: Vec<Vec<char>> = Vec::new();
    let mut i: usize = 0;
    while i < parts.len()
        invariant
            i <= parts.len(),
            texts(out@) == without_placeholders(texts(parts@).take(i as int)),
        decreases parts.len() - i,
    {
        proof {
            assert(texts(parts@).take(i + 1).drop_last() =~= texts(parts@).take(i as int));
        }
        let part = &parts[i];
        if !(part.len() == 1 && part[0] == '_') {
            let copy = slice(part, 0, part.len());
            proof {
                assert(copy@ =~= part@);
                assert(texts(out@.push(copy)) =~= texts(out@).push(copy@));
            }
            out.push(copy);
        } else {
            proof {
                assert(part@ =~= seq!['_']);
            }
        }
        i += 1;
    }
    proof {
        assert(texts(parts@).take(parts.len() as int) =~= texts(parts@));
    }
    out
}

/// The variants of a text in which `found` is the leftmost brace group.
fn variants(found: &Captured) -> (out: Option<Vec<Vec<char>>>)
    ensures
        match out {
            Some(v) => group_variants(found@) == Some(texts(v@)),
            None => group_variants(found@).is_none(),
        },
{
    match found.group(1) {
        Some(interior) => {
            let before = to_chars(found.before.as_str());
            let after = to_chars(found.after.as_str());
            let choices = split_alternatives(&interior);
            let mut out: Vec<Vec<char>> = Vec::new();
            let mut i: usize = 0;
            while i < choices.len()
                invariant
                    i <= choices.len(),
                    before@ == found@.before,
                    after@ == found@.after,
                    texts(out@) == spliced(before@, texts(choices@).take(i as int), after@),
                decreases choices.len() - i,
            {
                let mut variant = slice(&before, 0, before.len());
                append(&mut variant, &choices[i]);
                append(&mut variant, &after);
                proof {
                    assert(before@.subrange(0, before.len() as int) =~= before@);
                    assert(texts(out@.push(variant)) =~= texts(out@).push(variant@));
                    assert(spliced(before@, texts(choices@).take(i + 1), after@) =~= spliced(
                        before@,
                        texts(choices@).take(i as int),
                        after@,
                    ).push(before@ + choices@[i as int]@ + after@));
                }
                out.push(variant);
                i += 1;
            }
            proof {
                assert(texts(choices@).take(choices.len() as int) =~= texts(choices@));
            }
            Some(out)
        },
        None => None,
    }
}

/// The texts that take the place of a text in which `found` is the leftmost
/// brace group: the text before the group, one alternative, the text after
/// it. `None` where `found` has no group 1.
pub fn expand_group(found: &Captured) -> (out: Option<Vec<String>>)
    ensures
        match out {
            Some(v) => group_variants(found@) == Some(strings(v@)),
            None => group_variants(found@).is_none(),
        },
{
    match variants(found) {
        Some(v) => Some(to_strings(&v)),
        None => None,
    }
}

/// Appends the expansion of `text` to `out`.
fn expand_into(matcher: &Matcher, text: &Vec<char>, out: &mut Vec<Vec<char>>)
    requires
        matcher.pattern() == BRACE_GROUP@,
    ensures
        texts(final(out)@) == texts(old(out)@) + brace_expansion(text@),
    decreases text.len(),
{
    let haystack = to_text(text);
    if let Some(found) = matcher.captures(haystack.as_str()) {
        if let Some(items) = variants(&found) {
            let mut i: usize = 0;
            proof {
                assert(texts(out@) + Seq::<Seq<char>>::empty() =~= texts(out@));
            }
            while i < items.len()
                invariant
                    i <= items.len(),
                    matcher.pattern() == BRACE_GROUP@,
                    texts(out@) == texts(old(out)@) + expanded_all(
                        texts(items@).take(i as int),
                        text.len() as nat,
                    ),
                decreases items.len() - i,
            {
                proof {
                    assert(texts(items@).take(i + 1).drop_last() =~= texts(items@).take(i as int));
                    assert(texts(items@).take(i + 1).last() == items@[i as int]@);
                }
                let ghost before = texts(out@);
                if items[i].len() < text.len() {
                    expand_into(matcher, &items[i], out);
                    proof {
                        assert(texts(out@) =~= texts(old(out)@) + expanded_all(
                            texts(items@).take(i + 1),
                            text.len() as nat,
                        ));
                    }
                } else {
                    let copy = slice(&items[i], 0, items[i].len());
                    proof {
                        assert(copy@ =~= items@[i as int]@);
                        assert(texts(out@.push(copy)) =~= texts(out@).push(copy@));
                        assert(before.push(copy@) =~= texts(old(out)@) + expanded_all(
                            texts(items@).take(i + 1),
                            text.len() as nat,
                        ));
                    }
                    out.push(copy);
                }
                i += 1;
            }
            proof {
                assert(texts(items@).take(items.len() as int) =~= texts(items@));
            }
            return ;
        }
    }
    let copy = slice(text, 0, text.len());
    proof {
        assert(copy@ =~= text@);
        assert(texts(out@.push(copy)) =~= texts(out@) + seq![text@]);
    }
    out.push(copy);
}

/// The brace expansion of `text`.
fn expand(matcher: &Matcher, text: &Vec<char>) -> (out: Vec<Vec<char>>)
    requires
        matcher.pattern() == BRACE_GROUP@,
    ensures
        texts(out@) == brace_expansion(text@),
{
    let mut out: Vec<Vec<char>> = Vec::new();
    expand_into(matcher, text, &mut out);
    proof {
        assert(texts(Seq::<Vec<char>>::empty()) + brace_expansion(text@) =~= brace_expansion(
            text@,
        ));
    }
    out
}

/// Expands the brace groups of `input`: `{a,b}{1,2}` gives `a1`, `a2`, `b1`,
/// `b2`. An alternative that is exactly `_` is left out.
pub fn expand_braces(input: &str) -> (out: Vec<String>)
    ensures
        strings(out@) == brace_expansion(input@),
{
    let matcher = Matcher::compile(BRACE_GROUP);
    to_strings(&expand(&matcher, &to_chars(input)))
}

// ---------------------------------------------------------------------------
// From a trigger and a command to bindings
// ---------------------------------------------------------------------------

/// `items` without the empty text and the placeholder `_`.
pub open spec fn without_blanks(items: Seq<Seq<char>>) -> Seq<Seq<char>>
    decreases items.len(),
{
    if items.len() == 0 {
        items
    } else if is_blank_token(items.last()) {
        without_blanks(items.drop_last())
    } else {
        without_blanks(items.drop_last()).push(items.last())
    }
}

/// The binding that one expanded trigger makes with its command. The
/// trigger's `+`-separated parts are trimmed; the last is the key, those
/// before it the modifiers, blanks left out. A blank key makes no binding.
pub open spec fn binding_of(
    trigger: Seq<char>,
    command: Seq<char>,
    description: Option<Seq<char>>,
) -> Option<KeybindView> {
    let parts = trimmed_fields(trigger, '+');
    if is_blank_token(parts.last()) {
        None
    } else {
        Some(
            KeybindView {
                mods: without_blanks(parts.drop_last()),
                key: parts.last(),
                command,
                description,
            },
        )
    }
}

/// The command that goes with trigger number `k`: the command at the same
/// position, or the first one where there are fewer commands than triggers.
pub open spec fn command_for(commands: Seq<Seq<char>>, k: int) -> Seq<char> {
    if k < commands.len() {
        commands[k]
    } else {
        commands[0]
    }
}

/// The bindings of the expanded triggers with the expanded commands, in the
/// order of the triggers. Commands beyond the last trigger are not used, and
/// without any command there is no binding.
pub open spec fn paired(
    triggers: Seq<Seq<char>>,
    commands: Seq<Seq<char>>,
    description: Option<Seq<char>>,
) -> Seq<KeybindView>
    decreases triggers.len(),
{
    if triggers.len() == 0 || commands.len() == 0 {
        Seq::empty()
    } else {
        let earlier = paired(triggers.drop_last(), commands, description);
        match binding_of(
            triggers.last(),
            command_for(commands, triggers.len() - 1),
            description,
        ) {
            Some(binding) => earlier.push(binding),
            None => earlier,
        }
    }
}

/// The binding of one expanded trigger with its command.
fn binding(trigger: &Vec<char>, command: &Vec<char>, description: &Option<Vec<char>>) -> (out:
    Option<Keybind>)
    ensures
        match out {
            Some(b) => binding_of(trigger@, command@, opt_chars(*description)) == Some(b@),
            None => binding_of(trigger@, command@, opt_chars(*description)).is_none(),
        },
{
    let parts = split_trimmed(trigger, '+');
    let last = parts.len() - 1;
    let key = &parts[last];
    proof {
        assert(texts(parts@).last() == key@);
    }
    if key.len() == 0 || (key.len() == 1 && key[0] == '_') {
        proof {
            if key.len() == 1 {
                assert(key@ =~= seq!['_']);
            }
        }
        return None;
    }
    proof {
        if key@ == seq!['_'] {
            assert(key@[0] == '_');
        }
    }
    let mut mods: Vec<String> = Vec::new();
    let mut i: usize = 0;
    while i < last
        invariant
            i <= last,
            last == parts.len() - 1,
            strings(mods@) == without_blanks(texts(parts@).take(i as int)),
        decreases last - i,
    {
        proof {
            assert(texts(parts@).take(i + 1).drop_last() =~= texts(parts@).take(i as int));
        }
        let part = &parts[i];
        if part.len() == 0 || (part.len() == 1 && part[0] == '_') {
            proof {
                if part.len() == 1 {
                    assert(part@ =~= seq!['_']);
                }
            }
        } else {
            proof {
                if part@ == seq!['_'] {
                    assert(part@[0] == '_');
                }
            }
            let token = to_text(part);
            proof {
                assert(strings(mods@.push(token)) =~= strings(mods@).push(token@));
            }
            mods.push(token);
        }
        i += 1;
    }
    proof {
        assert(texts(parts@).take(last as int) =~= texts(parts@).drop_last());
    }
    let description = match description {
        Some(d) => Some(to_text(d)),
        None => None,
    };
    Some(Keybind { mods, key: to_text(key), command: to_text(command), description })
}

/// The view of an optional text.
pub open spec fn opt_chars(text: Option<Vec<char>>) -> Option<Seq<char>> {
    match text {
        Some(t) => Some(t@),
        None => None,
    }
}

/// Appends to `out` the bindings of the expanded triggers with the expanded
/// commands.
fn pair(
    triggers: &Vec<Vec<char>>,
    commands: &Vec<Vec<char>>,
    description: &Option<Vec<char>>,
    out: &mut Vec<Keybind>,
)
    ensures
        keybinds(final(out)@) == keybinds(old(out)@) + paired(
            texts(triggers@),
            texts(commands@),
            opt_chars(*description),
        ),
{
    proof {
        assert(keybinds(out@) + Seq::<KeybindView>::empty() =~= keybinds(out@));
    }
    if commands.len() == 0 {
        return ;
    }
    let mut k: usize = 0;
    while k < triggers.len()
        invariant
            k <= triggers.len(),
            commands.len() > 0,
            keybinds(out@) == keybinds(old(out)@) + paired(
                texts(triggers@).take(k as int),
                texts(commands@),
                opt_chars(*description),
            ),
        decreases triggers.len() - k,
    {
        proof {
            assert(texts(triggers@).take(k + 1).drop_last() =~= texts(triggers@).take(k as int));
        }
        let command = if k < commands.len() {
            &commands[k]
        } else {
            &commands[0]
        };
        match binding(&triggers[k], command, description) {
            Some(b) => {
                proof {
                    assert(keybinds(out@.push(b)) =~= keybinds(out@).push(b@));
                    assert(keybinds(out@).push(b@) =~= keybinds(old(out)@) + paired(
                        texts(triggers@).take(k as int),
                        texts(commands@),
                        opt_chars(*description),
                    ).push(b@));
                }
                out.push(b);
            },
            None => {},
        }
        k += 1;
    }
    proof {
        assert(texts(triggers@).take(triggers.len() as int) =~= texts(triggers@));
    }
}

// ---------------------------------------------------------------------------
// Blocks of lines
// ---------------------------------------------------------------------------

/// The trigger that begins with `line`, and the cursor behind it: while the
/// text ends in a backslash, the backslash is dropped and the next line, if
/// there is one, is appended trimmed. `i` is the cursor behind `line`.
pub open spec fn continued(line: Seq<char>, lines: Seq<Seq<char>>, i: int) -> (Seq<char>, int)
    decreases lines.len() - i, line.len(),
{
    if line.len() > 0 && line.last() == '\\' {
        if 0 <= i < lines.len() {
            continued(line.drop_last() + trimmed(lines[i]), lines, i + 1)
        } else {
            continued(line.drop_last(), lines, i)
        }
    } else {
        (line, i)
    }
}

/// Whether a trimmed line ends the command lines of a block: an empty line,
/// or a comment that does not begin with `#!`.
pub open spec fn closes_command(line: Seq<char>) -> bool {
    line.len() == 0 || (line[0] == '#' && !(line.len() > 1 && line[1] == '!'))
}

/// Whether a line, as written, begins with a space or a tab.
pub open spec fn indented(line: Seq<char>) -> bool {
    line.len() > 0 && (line[0] == ' ' || line[0] == '\t')
}

/// The command lines of a block from cursor `i` on, after those in `found`,
/// and the cursor behind them. Empty lines before the first command line are
/// passed over. A line that closes the command, or a line that is not
/// indented once a command line was found, is left for the next block. A
/// command line loses its trailing backslashes and is trimmed.
pub open spec fn collected(lines: Seq<Seq<char>>, i: int, found: Seq<Seq<char>>) -> (
    Seq<Seq<char>>,
    int,
)
    decreases lines.len() - i,
{
    if 0 <= i < lines.len() {
        let line = trimmed(lines[i]);
        if line.len() == 0 && found.len() == 0 {
            collected(lines, i + 1, found)
        } else if closes_command(line) {
            (found, i)
        } else if found.len() > 0 && !indented(lines[i]) {
            (found, i)
        } else {
            collected(lines, i + 1, found.push(trimmed(without_trailing(line, '\\'))))
        }
    } else {
        (found, i)
    }
}

/// What one block of lines yields: its bindings, and the cursor behind it.
pub struct Block {
    pub bindings: Seq<KeybindView>,
    pub next: int,
}

/// The description that the line at cursor `i` gives to the block that it
/// opens: the trimmed rest of a `# Description:` comment.
pub open spec fn description_at(lines: Seq<Seq<char>>, i: int) -> Option<Seq<char>> {
    let first = trimmed(lines[i]);
    if DESCRIPTION_PREFIX@.is_prefix_of(first) {
        Some(trimmed(first.skip(DESCRIPTION_PREFIX@.len() as int)))
    } else {
        None
    }
}

/// The block that begins at cursor `i`.
///
/// A description comment, if the block opens with one, is followed by the
/// trigger line; without a line after it the block is empty. A trigger line
/// that is empty or a comment makes an empty block. The trigger takes its
/// continuation lines, then the command lines are collected; without any the
/// block is empty. Else the command lines are joined by one space, trigger
/// and command are brace-expanded, and the expansions are paired.
pub open spec fn block_at(lines: Seq<Seq<char>>, i: int) -> Block {
    let description = description_at(lines, i);
    let at = if description.is_some() {
        i + 1
    } else {
        i
    };
    if at >= lines.len() {
        Block { bindings: Seq::empty(), next: at }
    } else {
        let head = trimmed(lines[at]);
        if head.len() == 0 || head[0] == '#' {
            Block { bindings: Seq::empty(), next: at + 1 }
        } else {
            let (trigger, behind_trigger) = continued(head, lines, at + 1);
            let (commands, next) = collected(lines, behind_trigger, Seq::empty());
            if commands.len() == 0 {
                Block { bindings: Seq::empty(), next }
            } else {
                Block {
                    bindings: paired(
                        brace_expansion(trigger),
                        brace_expansion(joined(commands, seq![' '])),
                        description,
                    ),
                    next,
                }
            }
        }
    }
}

/// The cursor behind a continued trigger is not before the cursor given, and
/// not behind the last line.
pub proof fn lemma_continued_advances(line: Seq<char>, lines: Seq<Seq<char>>, i: int)
    requires
        0 <= i <= lines.len(),
    ensures
        i <= continued(line, lines, i).1 <= lines.len(),
    decreases lines.len() - i, line.len(),
{
    if line.len() > 0 && line.last() == '\\' {
        if i < lines.len() {
            lemma_continued_advances(line.drop_last() + trimmed(lines[i]), lines, i + 1);
        } else {
            lemma_continued_advances(line.drop_last(), lines, i);
        }
    }
}

/// The cursor behind the command lines is not before the cursor given, and
/// not behind the last line.
pub proof fn lemma_collected_advances(lines: Seq<Seq<char>>, i: int, found: Seq<Seq<char>>)
    requires
        0 <= i <= lines.len(),
    ensures
        i <= collected(lines, i, found).1 <= lines.len(),
    decreases lines.len() - i,
{
    if i < lines.len() {
        let line = trimmed(lines[i]);
        if line.len() == 0 && found.len() == 0 {
            lemma_collected_advances(lines, i + 1, found);
        } else if closes_command(line) {
        } else if found.len() > 0 && !indented(lines[i]) {
        } else {
            lemma_collected_advances(
                lines,
                i + 1,
                found.push(trimmed(without_trailing(line, '\\'))),
            );
        }
    }
}

/// Every block takes at least one line and ends within the lines.
pub proof fn lemma_block_advances(lines: Seq<Seq<char>>, i: int)
    requires
        0 <= i < lines.len(),
    ensures
        i < block_at(lines, i).next <= lines.len(),
{
    let at = if description_at(lines, i).is_some() {
        i + 1
    } else {
        i
    };
    if at < lines.len() {
        let head = trimmed(lines[at]);
        if !(head.len() == 0 || head[0] == '#') {
            lemma_continued_advances(head, lines, at + 1);
            let behind_trigger = continued(head, lines, at + 1).1;
            lemma_collected_advances(lines, behind_trigger, Seq::empty());
        }
    }
}

/// The bindings of the blocks from cursor `i` on, in order.
pub open spec fn parsed_from(lines: Seq<Seq<char>>, i: int) -> Seq<KeybindView>
    decreases lines.len() - i,
{
    if 0 <= i < lines.len() {
        proof {
            lemma_block_advances(lines, i);
        }
        block_at(lines, i).bindings + parsed_from(lines, block_at(lines, i).next)
    } else {
        Seq::empty()
    }
}

/// The trigger that begins with `head`, and the cursor behind it.
fn continue_trigger(head: Vec<char>, lines: &Vec<Vec<char>>, i: usize) -> (out: (Vec<char>, usize))
    requires
        i <= lines.len(),
    ensures
        (out.0@, out.1 as int) == continued(head@, texts(lines@), i as int),
        i <= out.1 <= lines.len(),
{
    let mut line = head;
    let mut j: usize = i;
    while line.len() > 0 && line[line.len() - 1] == '\\'
        invariant
            i <= j <= lines.len(),
            continued(head@, texts(lines@), i as int) == continued(line@, texts(lines@), j as int),
        decreases lines.len() - j, line.len(),
    {
        line.pop();
        if j < lines.len() {
            let next = trim(&lines[j]);
            append(&mut line, &next);
            j += 1;
        }
    }
    (line, j)
}

/// The command lines from cursor `i` on, and the cursor behind them.
fn collect_commands(lines: &Vec<Vec<char>>, i: usize) -> (out: (Vec<Vec<char>>, usize))
    requires
        i <= lines.len(),
    ensures
        (texts(out.0@), out.1 as int) == collected(texts(lines@), i as int, Seq::empty()),
        i <= out.1 <= lines.len(),
{
    let mut found: Vec<Vec<char>> = Vec::new();
    let mut j: usize = i;
    let mut closed = false;
    proof {
        assert(texts(found@) =~= Seq::<Seq<char>>::empty());
    }
    while j < lines.len() && !closed
        invariant
            i <= j <= lines.len(),
            collected(texts(lines@), i as int, Seq::empty()) == collected(
                texts(lines@),
                j as int,
                texts(found@),
            ),
            closed ==> collected(texts(lines@), j as int, texts(found@)) == (
                texts(found@),
                j as int,
            ),
        decreases lines.len() - j, if closed { 0int } else { 1int },
    {
        let raw = &lines[j];
        let line = trim(raw);
        if line.len() == 0 && found.len() == 0 {
            j += 1;
        } else if line.len() == 0 || (line[0] == '#' && !(line.len() > 1 && line[1] == '!')) {
            closed = true;
        } else if found.len() > 0 && !(raw.len() > 0 && (raw[0] == ' ' || raw[0] == '\t')) {
            closed = true;
        } else {
            let command = trim(&trim_trailing(&line, '\\'));
            proof {
                assert(texts(found@.push(command)) =~= texts(found@).push(command@));
            }
            found.push(command);
            j += 1;
        }
    }
    (found, j)
}

/// The bindings of the block at cursor `i`, appended to `out`, and the
/// cursor behind the block.
fn read_block(
    matcher: &Matcher,
    prefix: &Vec<char>,
    lines: &Vec<Vec<char>>,
    i: usize,
    out: &mut Vec<Keybind>,
) -> (next: usize)
    requires
        matcher.pattern() == BRACE_GROUP@,
        prefix@ == DESCRIPTION_PREFIX@,
        i < lines.len(),
    ensures
        next as int == block_at(texts(lines@), i as int).next,
        keybinds(final(out)@) == keybinds(old(out)@) + block_at(texts(lines@), i as int).bindings,
{
    proof {
        assert(keybinds(out@) + Seq::<KeybindView>::empty() =~= keybinds(out@));
    }
    let first = trim(&lines[i]);
    let mut at: usize = i;
    let mut description: Option<Vec<char>> = None;
    if starts_with(&first, prefix) {
        let rest = slice(&first, prefix.len(), first.len());
        proof {
            assert(rest@ =~= first@.skip(prefix.len() as int));
        }
        description = Some(trim(&rest));
        at = i + 1;
    }
    if at >= lines.len() {
        return at;
    }
    let head = trim(&lines[at]);
    if head.len() == 0 || head[0] == '#' {
        return at + 1;
    }
    let (trigger, behind_trigger) = continue_trigger(head, lines, at + 1);
    let (commands, next) = collect_commands(lines, behind_trigger);
    if commands.len() == 0 {
        return next;
    }
    let mut space: Vec<char> = Vec::new();
    space.push(' ');
    let command = join_from(&commands, 0, &space);
    proof {
        assert(space@ =~= seq![' ']);
        assert(texts(commands@).skip(0) =~= texts(commands@));
    }
    let triggers = expand(matcher, &trigger);
    let expansions = expand(matcher, &command);
    pair(&triggers, &expansions, &description, out);
    next
}

/// The bindings that a configuration in the continuation dialect declares.
pub open spec fn parsed(lines: Seq<Seq<char>>) -> Seq<KeybindView> {
    parsed_from(lines, 0)
}

/// Parses a configuration in the continuation dialect, given as its lines.
/// Malformed blocks yield no binding; nothing fails.
pub fn parse_sxhkd(lines: &Vec<String>) -> (out: Vec<Keybind>)
    ensures
        keybinds(out@) == parsed(strings(lines@)),
        forall|k: int| 0 <= k < out.len() ==> (#[trigger] out[k])@.well_formed(),
{
    let matcher = Matcher::compile(BRACE_GROUP);
    let prefix = to_chars(DESCRIPTION_PREFIX);
    let mut raw: Vec<Vec<char>> = Vec::new();
    let mut n: usize = 0;
    while n < lines.len()
        invariant
            n <= lines.len(),
            texts(raw@) == strings(lines@.take(n as int)),
        decreases lines.len() - n,
    {
        let line = to_chars(lines[n].as_str());
        proof {
            assert(texts(raw@.push(line)) =~= texts(raw@).push(line@));
            assert(strings(lines@.take(n + 1)) =~= strings(lines@.take(n as int)).push(
                lines@[n as int]@,
            ));
        }
        raw.push(line);
        n += 1;
    }
    proof {
        assert(lines@.take(lines.len() as int) =~= lines@);
    }
    let mut out: Vec<Keybind> = Vec::new();
    let mut i: usize = 0;
    proof {
        assert(keybinds(out@) + parsed_from(texts(raw@), 0) =~= parsed_from(texts(raw@), 0));
    }
    while i < raw.len()
        invariant
            i <= raw.len(),
            matcher.pattern() == BRACE_GROUP@,
            prefix@ == DESCRIPTION_PREFIX@,
            keybinds(out@) + parsed_from(texts(raw@), i as int) == parsed(texts(raw@)),
        decreases raw.len() - i,
    {
        proof {
            lemma_block_advances(texts(raw@), i as int);
        }
        let ghost before = keybinds(out@);
        let next = read_block(&matcher, &prefix, &raw, i, &mut out);
        proof {
            let block = block_at(texts(raw@), i as int);
            assert((before + block.bindings) + parsed_from(texts(raw@), block.next) =~= before + (
            block.bindings + parsed_from(texts(raw@), block.next)));
        }
        i = next;
    }
    proof {
        assert(keybinds(out@) + Seq::<KeybindView>::empty() =~= keybinds(out@));
        lemma_parsed_well_formed(texts(raw@), 0);
        assert forall|k: int| 0 <= k < out.len() implies (#[trigger] out[k])@.well_formed() by {
            assert(keybinds(out@)[k] == out[k]@);
        }
    }
    out
}

// ---------------------------------------------------------------------------
// Laws
// ---------------------------------------------------------------------------

/// A text without a brace group is its own expansion.
pub proof fn lemma_plain_text_expands_to_itself(text: Seq<char>)
    requires
        first_group_variants(text).is_none(),
    ensures
        brace_expansion(text) == seq![text],
{
}

/// Whether `found` is a match in `text` whose interior, group 1, is
/// shorter than the whole match, as the interior of a brace group is
/// shorter than the group by its two braces.
pub open spec fn interior_is_shorter(found: Found, text: Seq<char>) -> bool {
    &&& found.splits(text)
    &&& found.group(1) matches Some(interior) ==> interior.len() < found.group(0).unwrap().len()
}

/// Whether every match that the search for a brace group reports has an
/// interior shorter than the match. Nothing here says that the search does
/// so: this is what the laws below ask of it.
pub open spec fn search_finds_groups() -> bool {
    forall|text: Seq<char>|
        (#[trigger] first_match(BRACE_GROUP@, text)) matches Some(found) ==> interior_is_shorter(
            found,
            text,
        )
}

/// What is kept of `items` is among `items`.
pub proof fn lemma_without_placeholders(items: Seq<Seq<char>>)
    ensures
        forall|i: int|
            0 <= i < without_placeholders(items).len() ==> items.contains(
                #[trigger] without_placeholders(items)[i],
            ),
    decreases items.len(),
{
    if items.len() > 0 {
        lemma_without_placeholders(items.drop_last());
        let earlier = without_placeholders(items.drop_last());
        assert forall|i: int| 0 <= i < without_placeholders(items).len() implies items.contains(
            #[trigger] without_placeholders(items)[i],
        ) by {
            if i < earlier.len() {
                let k = choose|k: int|
                    0 <= k < items.drop_last().len() && items.drop_last()[k] == earlier[i];
                assert(items[k] == earlier[i]);
            } else {
                assert(items[items.len() - 1] == items.last());
            }
        }
    }
}

/// Where the interior of a match is shorter than the match, every variant
/// is shorter than the text.
pub proof fn lemma_variants_are_shorter(found: Found, text: Seq<char>)
    requires
        interior_is_shorter(found, text),
        group_variants(found).is_some(),
    ensures
        forall|i: int|
            0 <= i < group_variants(found).unwrap().len() ==> (#[trigger] group_variants(
                found,
            ).unwrap()[i]).len() < text.len(),
{
    let interior = found.group(1).unwrap();
    let choices = alternatives(interior);
    lemma_without_placeholders(trimmed_fields(interior, ','));
    crate::text::lemma_fields_are_no_longer(interior, ',');
    assert forall|i: int| 0 <= i < group_variants(found).unwrap().len() implies (
    #[trigger] group_variants(found).unwrap()[i]).len() < text.len() by {
        let choice = choices[i];
        let k = choose|k: int|
            0 <= k < trimmed_fields(interior, ',').len() && trimmed_fields(interior, ',')[k]
                == choice;
        assert(trimmed_fields(interior, ',')[k].len() <= interior.len());
        assert(group_variants(found).unwrap()[i] == found.before + choice + found.after);
    }
}

/// Where every match has an interior shorter than the match, an expansion
/// leaves no brace group: the search finds none in any text of the result,
/// so that expanding such a text again gives the text itself.
pub proof fn lemma_expansion_leaves_no_group(text: Seq<char>)
    requires
        search_finds_groups(),
    ensures
        forall|i: int|
            0 <= i < brace_expansion(text).len() ==> first_group_variants(
                #[trigger] brace_expansion(text)[i],
            ).is_none(),
        forall|i: int|
            0 <= i < brace_expansion(text).len() ==> brace_expansion(brace_expansion(text)[i])
                == seq![#[trigger] brace_expansion(text)[i]],
    decreases text.len() + 1, 0nat,
{
    match first_group_variants(text) {
        Some(variants) => {
            let found = first_match(BRACE_GROUP@, text).unwrap();
            lemma_variants_are_shorter(found, text);
            lemma_expansions_leave_no_group(variants, text.len());
        },
        None => {},
    }
}

/// As [`lemma_expansion_leaves_no_group`], for texts that are all shorter
/// than `limit`.
pub proof fn lemma_expansions_leave_no_group(items: Seq<Seq<char>>, limit: nat)
    requires
        search_finds_groups(),
        forall|i: int| 0 <= i < items.len() ==> (#[trigger] items[i]).len() < limit,
    ensures
        forall|i: int|
            0 <= i < expanded_all(items, limit).len() ==> first_group_variants(
                #[trigger] expanded_all(items, limit)[i],
            ).is_none(),
    decreases limit, items.len() + 1,
{
    if items.len() > 0 {
        lemma_expansions_leave_no_group(items.drop_last(), limit);
        lemma_expansion_leaves_no_group(items.last());
        let earlier = expanded_all(items.drop_last(), limit);
        let all = expanded_all(items, limit);
        assert forall|i: int| 0 <= i < all.len() implies first_group_variants(
            #[trigger] all[i],
        ).is_none() by {
            if i < earlier.len() {
                assert(all[i] == earlier[i]);
            } else {
                assert(all[i] == brace_expansion(items.last())[i - earlier.len()]);
            }
        }
    }
}

/// Whether `s` holds no brace.
pub open spec fn brace_free(s: Seq<char>) -> bool {
    free_of(s, '{') && free_of(s, '}')
}

/// The text of a row of brace groups: each an interior in braces, followed
/// by its tail.
pub open spec fn groups_text(groups: Seq<(Seq<char>, Seq<char>)>) -> Seq<char>
    decreases groups.len(),
{
    if groups.len() == 0 {
        Seq::empty()
    } else {
        seq!['{'] + groups[0].0 + seq!['}'] + groups[0].1 + groups_text(groups.drop_first())
    }
}

/// Whether `head` and `groups` spell out a text with brace groups that are
/// not nested: the head and each tail hold no brace, each interior holds
/// none and is not empty.
pub open spec fn well_grouped(head: Seq<char>, groups: Seq<(Seq<char>, Seq<char>)>) -> bool {
    &&& brace_free(head)
    &&& forall|i: int|
        0 <= i < groups.len() ==> (#[trigger] groups[i]).0.len() > 0 && brace_free(groups[i].0)
            && brace_free(groups[i].1)
}

/// What a search for the leftmost brace group finds in the text that `head`
/// and `groups` spell out.
pub open spec fn leftmost_group(head: Seq<char>, groups: Seq<(Seq<char>, Seq<char>)>) -> Option<
    Found,
> {
    if groups.len() == 0 {
        None
    } else {
        Some(
            Found {
                before: head,
                groups: seq![Some(seq!['{'] + groups[0].0 + seq!['}']), Some(groups[0].0)],
                after: groups[0].1 + groups_text(groups.drop_first()),
            },
        )
    }
}

/// Whether the search for a brace group finds the leftmost group in every
/// text whose groups are not nested, and nothing where there is none.
/// Nothing here says that the search does so: this is what the laws below
/// ask of it.
pub open spec fn search_is_leftmost() -> bool {
    forall|head: Seq<char>, groups: Seq<(Seq<char>, Seq<char>)>|
        well_grouped(head, groups) ==> #[trigger] first_match(
            BRACE_GROUP@,
            head + groups_text(groups),
        ) == leftmost_group(head, groups)
}

/// The texts made of `head` and, for each group in turn, one of its
/// alternatives and its tail: every choice of alternatives, the choices for
/// a later group changing faster.
pub open spec fn combinations(head: Seq<char>, groups: Seq<(Seq<char>, Seq<char>)>) -> Seq<
    Seq<char>,
>
    decreases groups.len(), 0nat,
{
    if groups.len() == 0 {
        seq![head]
    } else {
        chosen(head, alternatives(groups[0].0), groups[0].1, groups.drop_first())
    }
}

/// The combinations that begin with `head`, one of `choices` and `tail`.
pub open spec fn chosen(
    head: Seq<char>,
    choices: Seq<Seq<char>>,
    tail: Seq<char>,
    rest: Seq<(Seq<char>, Seq<char>)>,
) -> Seq<Seq<char>>
    decreases rest.len(), choices.len() + 1,
{
    if choices.len() == 0 {
        Seq::empty()
    } else {
        chosen(head, choices.drop_last(), tail, rest) + combinations(
            head + choices.last() + tail,
            rest,
        )
    }
}

/// The number of combinations: the product of the numbers of alternatives
/// of the groups.
pub open spec fn choices_count(groups: Seq<(Seq<char>, Seq<char>)>) -> nat
    decreases groups.len(),
{
    if groups.len() == 0 {
        1
    } else {
        alternatives(groups[0].0).len() * choices_count(groups.drop_first())
    }
}

/// There is one combination for every choice of alternatives.
pub proof fn lemma_combinations_count(head: Seq<char>, groups: Seq<(Seq<char>, Seq<char>)>)
    ensures
        combinations(head, groups).len() == choices_count(groups),
    decreases groups.len(), 0nat,
{
    if groups.len() > 0 {
        lemma_chosen_count(head, alternatives(groups[0].0), groups[0].1, groups.drop_first());
    }
}

proof fn lemma_chosen_count(
    head: Seq<char>,
    choices: Seq<Seq<char>>,
    tail: Seq<char>,
    rest: Seq<(Seq<char>, Seq<char>)>,
)
    ensures
        chosen(head, choices, tail, rest).len() == choices.len() * choices_count(rest),
    decreases rest.len(), choices.len() + 1,
{
    if choices.len() > 0 {
        lemma_chosen_count(head, choices.drop_last(), tail, rest);
        lemma_combinations_count(head + choices.last() + tail, rest);
        let n = choices.len() as int;
        let m = choices_count(rest) as int;
        assert((n - 1) * m + m == n * m) by (nonlinear_arith);
    } else {
        assert(0 * choices_count(rest) == 0) by (nonlinear_arith);
    }
}

/// The alternatives of an interior without braces hold no brace.
pub proof fn lemma_alternatives_are_brace_free(interior: Seq<char>)
    requires
        brace_free(interior),
    ensures
        forall|i: int|
            0 <= i < alternatives(interior).len() ==> brace_free(
                #[trigger] alternatives(interior)[i],
            ),
{
    lemma_without_placeholders(trimmed_fields(interior, ','));
    crate::text::lemma_fields_are_free_of(interior, ',', '{');
    crate::text::lemma_fields_are_free_of(interior, ',', '}');
    assert forall|i: int| 0 <= i < alternatives(interior).len() implies brace_free(
        #[trigger] alternatives(interior)[i],
    ) by {
        let choice = alternatives(interior)[i];
        let k = choose|k: int|
            0 <= k < trimmed_fields(interior, ',').len() && trimmed_fields(interior, ',')[k]
                == choice;
        assert(brace_free(trimmed_fields(interior, ',')[k]));
    }
}

/// Where the search finds the leftmost group, the expansion of a text whose
/// groups are not nested is the list of its combinations: the text with
/// every group replaced by one of its alternatives, every choice once, and
/// as many texts as the numbers of alternatives multiply to.
pub proof fn lemma_expansion_is_combinations(
    head: Seq<char>,
    groups: Seq<(Seq<char>, Seq<char>)>,
)
    requires
        search_is_leftmost(),
        well_grouped(head, groups),
    ensures
        brace_expansion(head + groups_text(groups)) == combinations(head, groups),
        brace_expansion(head + groups_text(groups)).len() == choices_count(groups),
    decreases groups.len(), 0nat,
{
    let text = head + groups_text(groups);
    assert(first_match(BRACE_GROUP@, head + groups_text(groups)) == leftmost_group(head, groups));
    if groups.len() == 0 {
        assert(text =~= head);
    } else {
        let found = leftmost_group(head, groups).unwrap();
        let interior = groups[0].0;
        let tail = groups[0].1;
        let rest = groups.drop_first();
        assert(found.group(1) == Some(interior));
        assert(found.group(0) == Some(seq!['{'] + interior + seq!['}']));
        assert(found.before + found.group(0).unwrap() + found.after =~= text);
        lemma_variants_are_shorter(found, text);
        lemma_alternatives_are_brace_free(interior);
        let choices = alternatives(interior);
        assert forall|i: int| 0 <= i < choices.len() implies (head + (#[trigger] choices[i]) + (
        tail + groups_text(rest))).len() < text.len() by {
            assert(group_variants(found).unwrap()[i] == head + choices[i] + (tail + groups_text(
                rest,
            )));
        }
        assert(well_grouped(Seq::empty(), rest)) by {
            assert forall|i: int| 0 <= i < rest.len() implies (#[trigger] rest[i]).0.len() > 0
                && brace_free(rest[i].0) && brace_free(rest[i].1) by {
                assert(rest[i] == groups[i + 1]);
            }
        }
        lemma_expansion_is_chosen(head, choices, tail, rest, text.len());
    }
    lemma_combinations_count(head, groups);
}

proof fn lemma_expansion_is_chosen(
    head: Seq<char>,
    choices: Seq<Seq<char>>,
    tail: Seq<char>,
    rest: Seq<(Seq<char>, Seq<char>)>,
    limit: nat,
)
    requires
        search_is_leftmost(),
        brace_free(head),
        brace_free(tail),
        well_grouped(Seq::empty(), rest),
        forall|i: int| 0 <= i < choices.len() ==> brace_free(#[trigger] choices[i]),
        forall|i: int|
            0 <= i < choices.len() ==> (head + (#[trigger] choices[i]) + (tail + groups_text(
                rest,
            ))).len() < limit,
    ensures
        expanded_all(spliced(head, choices, tail + groups_text(rest)), limit) == chosen(
            head,
            choices,
            tail,
            rest,
        ),
    decreases rest.len(), choices.len() + 1,
{
    let after = tail + groups_text(rest);
    let items = spliced(head, choices, after);
    if choices.len() > 0 {
        let last = choices.last();
        assert(items.drop_last() =~= spliced(head, choices.drop_last(), after));
        assert(items.last() == head + last + after);
        lemma_expansion_is_chosen(head, choices.drop_last(), tail, rest, limit);
        let next = head + last + tail;
        assert(brace_free(last));
        assert(well_grouped(next, rest)) by {
            assert(brace_free(choices[choices.len() - 1]));
            assert forall|i: int| 0 <= i < next.len() implies next[i] != '{' && next[i] != '}' by {
                if i < head.len() {
                    assert(next[i] == head[i]);
                } else if i < head.len() + last.len() {
                    assert(next[i] == last[i - head.len()]);
                } else {
                    assert(next[i] == tail[i - head.len() - last.len()]);
                }
            }
        }
        lemma_expansion_is_combinations(next, rest);
        assert(next + groups_text(rest) =~= head + last + after);
        assert(items.last().len() < limit) by {
            assert((head + choices[choices.len() - 1] + after).len() < limit);
        }
    } else {
        assert(items =~= Seq::<Seq<char>>::empty());
    }
}

/// No blank is left among the modifiers.
pub proof fn lemma_without_blanks(items: Seq<Seq<char>>)
    ensures
        forall|i: int|
            0 <= i < without_blanks(items).len() ==> !is_blank_token(
                #[trigger] without_blanks(items)[i],
            ),
    decreases items.len(),
{
    if items.len() > 0 {
        lemma_without_blanks(items.drop_last());
        let earlier = without_blanks(items.drop_last());
        assert forall|i: int| 0 <= i < without_blanks(items).len() implies !is_blank_token(
            #[trigger] without_blanks(items)[i],
        ) by {
            if i < earlier.len() {
                assert(without_blanks(items)[i] == earlier[i]);
            }
        }
    }
}

/// A binding is made only with a key that is not blank, and its modifiers
/// hold no blank: neither the empty text nor the placeholder `_`.
pub proof fn lemma_binding_well_formed(
    trigger: Seq<char>,
    command: Seq<char>,
    description: Option<Seq<char>>,
)
    ensures
        match binding_of(trigger, command, description) {
            Some(binding) => binding.well_formed(),
            None => true,
        },
{
    lemma_without_blanks(trimmed_fields(trigger, '+').drop_last());
}

/// Every binding that pairing yields is well formed, carries the description
/// given, and carries one of the commands: the one at its trigger's position
/// or the first.
pub proof fn lemma_paired(
    triggers: Seq<Seq<char>>,
    commands: Seq<Seq<char>>,
    description: Option<Seq<char>>,
)
    ensures
        forall|k: int|
            0 <= k < paired(triggers, commands, description).len() ==> {
                let binding = #[trigger] paired(triggers, commands, description)[k];
                &&& binding.well_formed()
                &&& binding.description == description
                &&& exists|t: int|
                    0 <= t < triggers.len() && binding.command == command_for(commands, t)
            },
    decreases triggers.len(),
{
    if triggers.len() > 0 && commands.len() > 0 {
        let earlier = paired(triggers.drop_last(), commands, description);
        let all = paired(triggers, commands, description);
        lemma_paired(triggers.drop_last(), commands, description);
        lemma_binding_well_formed(
            triggers.last(),
            command_for(commands, triggers.len() - 1),
            description,
        );
        assert forall|k: int| 0 <= k < all.len() implies {
            let binding = #[trigger] all[k];
            &&& binding.well_formed()
            &&& binding.description == description
            &&& exists|t: int|
                0 <= t < triggers.len() && binding.command == command_for(commands, t)
        } by {
            if k < earlier.len() {
                assert(all[k] == earlier[k]);
                let t = choose|t: int|
                    0 <= t < triggers.drop_last().len() && earlier[k].command == command_for(
                        commands,
                        t,
                    );
                assert(0 <= t < triggers.len() && all[k].command == command_for(commands, t));
            } else {
                let t = triggers.len() - 1;
                assert(0 <= t < triggers.len() && all[k].command == command_for(commands, t));
            }
        }
    }
}

/// Where the command expands to a single text, every binding of the block
/// carries that one command, however many triggers there are.
pub proof fn lemma_single_command_is_shared(
    triggers: Seq<Seq<char>>,
    commands: Seq<Seq<char>>,
    description: Option<Seq<char>>,
)
    requires
        commands.len() == 1,
    ensures
        forall|k: int|
            0 <= k < paired(triggers, commands, description).len() ==> (#[trigger] paired(
                triggers,
                commands,
                description,
            )[k]).command == commands[0],
{
    lemma_paired(triggers, commands, description);
}

/// A description belongs to the block that it opens and to no other: every
/// binding of a block carries the description of the block's own first line,
/// and none where that line is no description comment.
pub proof fn lemma_description_stays_in_block(lines: Seq<Seq<char>>, i: int)
    requires
        0 <= i < lines.len(),
    ensures
        forall|k: int|
            0 <= k < block_at(lines, i).bindings.len() ==> (#[trigger] block_at(
                lines,
                i,
            ).bindings[k]).description == description_at(lines, i),
{
    let description = description_at(lines, i);
    let at = if description.is_some() {
        i + 1
    } else {
        i
    };
    if at < lines.len() {
        let head = trimmed(lines[at]);
        if !(head.len() == 0 || head[0] == '#') {
            let (trigger, behind_trigger) = continued(head, lines, at + 1);
            let (commands, next) = collected(lines, behind_trigger, Seq::empty());
            if commands.len() > 0 {
                lemma_paired(
                    brace_expansion(trigger),
                    brace_expansion(joined(commands, seq![' '])),
                    description,
                );
            }
        }
    }
}

/// Every binding of a block is well formed.
pub proof fn lemma_block_well_formed(lines: Seq<Seq<char>>, i: int)
    requires
        0 <= i < lines.len(),
    ensures
        forall|k: int|
            0 <= k < block_at(lines, i).bindings.len() ==> (#[trigger] block_at(
                lines,
                i,
            ).bindings[k]).well_formed(),
{
    let description = description_at(lines, i);
    let at = if description.is_some() {
        i + 1
    } else {
        i
    };
    if at < lines.len() {
        let head = trimmed(lines[at]);
        if !(head.len() == 0 || head[0] == '#') {
            let (trigger, behind_trigger) = continued(head, lines, at + 1);
            let (commands, next) = collected(lines, behind_trigger, Seq::empty());
            if commands.len() > 0 {
                lemma_paired(
                    brace_expansion(trigger),
                    brace_expansion(joined(commands, seq![' '])),
                    description,
                );
            }
        }
    }
}

/// No binding is emitted with a blank key or a blank modifier: in
/// particular the placeholder `_` of a brace group never shows up as a
/// modifier.
pub proof fn lemma_parsed_well_formed(lines: Seq<Seq<char>>, i: int)
    ensures
        forall|k: int|
            0 <= k < parsed_from(lines, i).len() ==> (#[trigger] parsed_from(
                lines,
                i,
            )[k]).well_formed(),
    decreases lines.len() - i,
{
    if 0 <= i < lines.len() {
        lemma_block_advances(lines, i);
        lemma_block_well_formed(lines, i);
        lemma_parsed_well_formed(lines, block_at(lines, i).next);
        let block = block_at(lines, i).bindings;
        let rest = parsed_from(lines, block_at(lines, i).next);
        assert forall|k: int| 0 <= k < parsed_from(lines, i).len() implies (
        #[trigger] parsed_from(lines, i)[k]).well_formed() by {
            if k < block.len() {
                assert(parsed_from(lines, i)[k] == block[k]);
            } else {
                assert(parsed_from(lines, i)[k] == rest[k - block.len()]);
            }
        }
    }
}

} // verus!
