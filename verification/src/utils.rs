//! Paths as they are written in a configuration: `~`, `$HOME` and
//! references to environment variables are replaced by their values.

use crate::pattern::{first_match, opt_found, Captured, Found, Matcher};
use crate::text::{
    append, assignments, count, count_of, fields, find_value, join_from, joined,
    lemma_count_of_parts, opt_text, replace, replaced, slice, split, texts, to_chars, to_text,
    value_of,
};
use vstd::prelude::*;

verus! {

/// The regular expression of a reference to an environment variable: `$`,
/// then the name (group 1), a letter or underscore followed by letters,
/// digits and underscores.
pub const ENV_REFERENCE: &'static str = r"\$([A-Za-z_][A-Za-z0-9_]*)";

/// How many substitutions may leave as many `$` in the text as there were.
/// A substitution takes one reference out of the text, so it lowers the
/// number of `$` unless the value put in holds a `$` of its own; only such
/// substitutions are counted, which ends the work on a value that refers to
/// itself.
pub const NESTED_REFERENCES: usize = 64;

/// `path` with the home directory put in: every `$HOME` is replaced, then a
/// leading `~`. Without a home directory the path stays as it is.
pub open spec fn with_home(path: Seq<char>, home: Option<Seq<char>>) -> Seq<char> {
    match home {
        Some(dir) => {
            let replaced_all = replaced(path, "$HOME"@, dir);
            if replaced_all.len() > 0 && replaced_all[0] == '~' {
                dir + replaced_all.skip(1)
            } else {
                replaced_all
            }
        },
        None => path,
    }
}

/// The text after the reference that was found in it was resolved: the text
/// before the reference, the value of the variable that group 1 names, the
/// text after the reference. `None` where nothing was found, or the
/// environment has no such variable.
pub open spec fn reference_resolved(found: Option<Found>, env: Seq<(Seq<char>, Seq<char>)>) -> Option<
    Seq<char>,
> {
    match found {
        Some(f) => match f.group(1) {
            Some(name) => match value_of(env, name) {
                Some(value) => Some(f.before + value + f.after),
                None => None,
            },
            None => None,
        },
        None => None,
    }
}

/// `text` after its references were resolved, the leftmost first, each
/// search starting anew at the beginning, until no reference is left or the
/// leftmost names no variable. What is not resolved stays as it is written.
/// `nested` is how many substitutions may still leave the number of `$` as
/// it is; the one after those is not made.
pub open spec fn with_environment(
    text: Seq<char>,
    env: Seq<(Seq<char>, Seq<char>)>,
    nested: nat,
) -> Seq<char>
    decreases nested, count_of(text, '$'),
{
    match reference_resolved(first_match(ENV_REFERENCE@, text), env) {
        Some(next) => if count_of(next, '$') < count_of(text, '$') {
            with_environment(next, env, nested)
        } else if nested > 0 {
            with_environment(next, env, (nested - 1) as nat)
        } else {
            text
        },
        None => text,
    }
}

/// The path that `path` stands for, with this home directory and this
/// environment.
pub open spec fn resolved(
    path: Seq<char>,
    home: Option<Seq<char>>,
    env: Seq<(Seq<char>, Seq<char>)>,
) -> Seq<char> {
    with_environment(with_home(path, home), env, NESTED_REFERENCES as nat)
}

/// Resolving a reference lowers the number of `$` in the text where the
/// reference holds a `$` and the value put in holds none.
pub proof fn lemma_reference_spends_a_dollar(
    text: Seq<char>,
    found: Found,
    env: Seq<(Seq<char>, Seq<char>)>,
)
    requires
        found.splits(text),
        count_of(found.group(0).unwrap(), '$') > 0,
        reference_resolved(Some(found), env).is_some(),
        count_of(value_of(env, found.group(1).unwrap()).unwrap(), '$') == 0,
    ensures
        count_of(reference_resolved(Some(found), env).unwrap(), '$') < count_of(text, '$'),
{
    let whole = found.group(0).unwrap();
    let value = value_of(env, found.group(1).unwrap()).unwrap();
    lemma_count_of_parts(found.before + whole, found.after, '$');
    lemma_count_of_parts(found.before, whole, '$');
    lemma_count_of_parts(found.before + value, found.after, '$');
    lemma_count_of_parts(found.before, value, '$');
}

/// Whether every match that the search for a reference reports is a part of
/// the text and holds a `$`. Nothing here says that the search does so:
/// this is what the law below asks of it.
pub open spec fn search_finds_references() -> bool {
    forall|text: Seq<char>|
        (#[trigger] first_match(ENV_REFERENCE@, text)) matches Some(found) ==> found.splits(text)
            && count_of(found.group(0).unwrap(), '$') > 0
}

/// Whether no value of the environment holds a `$`.
pub open spec fn plain_values(env: Seq<(Seq<char>, Seq<char>)>) -> bool {
    forall|i: int| 0 <= i < env.len() ==> count_of((#[trigger] env[i]).1, '$') == 0
}

/// A value that is looked up is the value of an entry.
pub proof fn lemma_value_is_of_an_entry(env: Seq<(Seq<char>, Seq<char>)>, name: Seq<char>)
    requires
        value_of(env, name).is_some(),
    ensures
        exists|i: int| 0 <= i < env.len() && (#[trigger] env[i]).1 == value_of(env, name).unwrap(),
    decreases env.len(),
{
    if env[0].0 == name {
        assert(env[0].1 == value_of(env, name).unwrap());
    } else {
        lemma_value_is_of_an_entry(env.drop_first(), name);
        let i = choose|i: int|
            0 <= i < env.drop_first().len() && (#[trigger] env.drop_first()[i]).1 == value_of(
                env.drop_first(),
                name,
            ).unwrap();
        assert(env[i + 1].1 == value_of(env, name).unwrap());
    }
}

/// Where no value holds a `$`, the bound on nested references plays no
/// part: every reference is resolved, however many there are, and the work
/// ends only at a text in which no reference is found or the leftmost names
/// no variable. This holds of a search whose matches hold a `$`.
pub proof fn lemma_plain_values_need_no_bound(
    text: Seq<char>,
    env: Seq<(Seq<char>, Seq<char>)>,
    nested: nat,
)
    requires
        search_finds_references(),
        plain_values(env),
    ensures
        with_environment(text, env, nested) == with_environment(text, env, 0),
        reference_resolved(
            first_match(ENV_REFERENCE@, with_environment(text, env, nested)),
            env,
        ).is_none(),
    decreases count_of(text, '$'),
{
    let found = first_match(ENV_REFERENCE@, text);
    match reference_resolved(found, env) {
        Some(next) => {
            let name = found.unwrap().group(1).unwrap();
            lemma_value_is_of_an_entry(env, name);
            lemma_reference_spends_a_dollar(text, found.unwrap(), env);
            lemma_plain_values_need_no_bound(next, env, nested);
            lemma_plain_values_need_no_bound(next, env, 0);
        },
        None => {},
    }
}

/// Resolves the reference that a search found: the text before it, the
/// value of the variable that it names, the text after it. `None` where
/// nothing was found or the environment has no such variable; the text then
/// stays as it is.
pub fn resolve_reference(found: &Option<Captured>, env: &Vec<(String, String)>) -> (out: Option<
    String,
>)
    ensures
        opt_text(out) == reference_resolved(opt_found(*found), assignments(env@)),
{
    match found {
        Some(f) => match f.group(1) {
            Some(name) => match find_value(env, &name) {
                Some(value) => {
                    let mut text = to_chars(f.before.as_str());
                    append(&mut text, &value);
                    append(&mut text, &to_chars(f.after.as_str()));
                    Some(to_text(&text))
                },
                None => None,
            },
            None => None,
        },
        None => None,
    }
}

/// The components among the parts of a path: the parts between separators
/// without the empty ones and without `.`, except a `.` that is the first
/// part.
pub open spec fn components(parts: Seq<Seq<char>>) -> Seq<Seq<char>>
    decreases parts.len(),
{
    if parts.len() == 0 {
        parts
    } else if parts.last().len() == 0 || (parts.last() == seq!['.'] && parts.len() > 1) {
        components(parts.drop_last())
    } else {
        components(parts.drop_last()).push(parts.last())
    }
}

/// The normal spelling of a path: its components joined by one `/`, behind
/// a `/` where the path begins with one. Two spellings name the same path
/// when their components agree, as `std::path::Path` compares paths:
/// repeated separators, a separator at the end and `.` anywhere but at the
/// beginning make no difference.
pub open spec fn normal_path(path: Seq<char>) -> Seq<char> {
    let parts = joined(components(fields(path, '/')), seq!['/']);
    if path.len() > 0 && path[0] == '/' {
        seq!['/'] + parts
    } else {
        parts
    }
}

/// Brings a path to its normal spelling.
pub fn normalize_path(path: &str) -> (out: String)
    ensures
        out@ == normal_path(path@),
{
    let text = to_chars(path);
    let parts = split(&text, '/');
    let mut kept: Vec<Vec<char>> = Vec::new();
    let mut i: usize = 0;
    proof {
        assert(texts(kept@) =~= Seq::<Seq<char>>::empty());
        assert(texts(parts@).take(0) =~= Seq::<Seq<char>>::empty());
    }
    while i < parts.len()
        invariant
            i <= parts.len(),
            texts(kept@) == components(texts(parts@).take(i as int)),
        decreases parts.len() - i,
    {
        proof {
            assert(texts(parts@).take(i + 1).drop_last() =~= texts(parts@).take(i as int));
            assert(texts(parts@).take(i + 1).last() == parts@[i as int]@);
        }
        let part = &parts[i];
        if part.len() == 0 || (part.len() == 1 && part[0] == '.' && i > 0) {
            proof {
                if part.len() == 1 {
                    assert(part@ =~= seq!['.']);
                }
            }
        } else {
            let copy = slice(part, 0, part.len());
            proof {
                if part@ == seq!['.'] {
                    assert(part@[0] == '.');
                }
                assert(copy@ =~= part@);
                assert(texts(kept@.push(copy)) =~= texts(kept@).push(copy@));
            }
            kept.push(copy);
        }
        i += 1;
    }
    proof {
        assert(texts(parts@).take(parts.len() as int) =~= texts(parts@));
        assert(texts(kept@).skip(0) =~= texts(kept@));
    }
    let mut slash: Vec<char> = Vec::new();
    slash.push('/');
    proof {
        assert(slash@ =~= seq!['/']);
    }
    let body = join_from(&kept, 0, &slash);
    if text.len() > 0 && text[0] == '/' {
        let mut out = slash;
        append(&mut out, &body);
        to_text(&out)
    } else {
        to_text(&body)
    }
}

/// Puts the home directory into `path`.
fn expand_home(path: &str, home: &Option<String>) -> (out: String)
    ensures
        out@ == with_home(path@, opt_text(*home)),
{
    match home {
        Some(dir) => {
            let dir = to_chars(dir.as_str());
            let replaced_all = replace(&to_chars(path), &to_chars("$HOME"), &dir);
            if replaced_all.len() > 0 && replaced_all[0] == '~' {
                let mut out = slice(&dir, 0, dir.len());
                append(&mut out, &slice(&replaced_all, 1, replaced_all.len()));
                proof {
                    assert(out@ =~= dir@ + replaced_all@.skip(1));
                }
                to_text(&out)
            } else {
                to_text(&replaced_all)
            }
        },
        None => to_text(&to_chars(path)),
    }
}

/// Resolves a path with a matcher compiled from [`ENV_REFERENCE`].
pub(crate) fn resolve_with(
    matcher: &Matcher,
    path_str: &str,
    home: &Option<String>,
    env: &Vec<(String, String)>,
) -> (out: String)
    requires
        matcher.pattern() == ENV_REFERENCE@,
    ensures
        out@ == resolved(path_str@, opt_text(*home), assignments(env@)),
{
    let mut text = expand_home(path_str, home);
    let mut dollars = count(&to_chars(text.as_str()), '$');
    let mut nested: usize = NESTED_REFERENCES;
    let mut open = true;
    while open
        invariant
            matcher.pattern() == ENV_REFERENCE@,
            dollars == count_of(text@, '$'),
            resolved(path_str@, opt_text(*home), assignments(env@)) == with_environment(
                text@,
                assignments(env@),
                nested as nat,
            ),
            !open ==> with_environment(text@, assignments(env@), nested as nat) == text@,
        decreases nested, dollars, if open { 1int } else { 0int },
    {
        let found = matcher.captures(text.as_str());
        match resolve_reference(&found, env) {
            Some(next) => {
                let left = count(&to_chars(next.as_str()), '$');
                if left < dollars {
                    text = next;
                    dollars = left;
                } else if nested > 0 {
                    text = next;
                    dollars = left;
                    nested -= 1;
                } else {
                    open = false;
                }
            },
            None => {
                open = false;
            },
        }
    }
    text
}

/// Resolves a path as it is written in a configuration. `home` is the
/// user's home directory, if there is one, and `env` the environment as
/// pairs of name and value. The path is not looked up on disk, and nothing
/// fails: what cannot be resolved stays as written.
pub fn resolve_path(path_str: &str, home: &Option<String>, env: &Vec<(String, String)>) -> (out:
    String)
    ensures
        out@ == resolved(path_str@, opt_text(*home), assignments(env@)),
{
    let matcher = Matcher::compile(ENV_REFERENCE);
    resolve_with(&matcher, path_str, home, env)
}

} // verus!
