//! Character-level text primitives shared by the parsers.
//!
//! Every function is specified over `Seq<char>`, the view of `str` and
//! `String`. The executable versions work on `Vec<char>`, so that positions
//! are character positions throughout.

use vstd::prelude::*;

verus! {

/// Whether `c` is white space: a character with the Unicode `White_Space`
/// property.
pub open spec fn white_space(c: char) -> bool {
    ||| '\u{9}' <= c <= '\u{d}'
    ||| c == ' '
    ||| c == '\u{85}'
    ||| c == '\u{a0}'
    ||| c == '\u{1680}'
    ||| '\u{2000}' <= c <= '\u{200a}'
    ||| c == '\u{2028}'
    ||| c == '\u{2029}'
    ||| c == '\u{202f}'
    ||| c == '\u{205f}'
    ||| c == '\u{3000}'
}

/// `char::is_whitespace` tells whether the character has the Unicode
/// `White_Space` property; [`white_space`] lists the characters that have
/// it.
pub assume_specification[ char::is_whitespace ](c: char) -> (b: bool)
    ensures
        b == white_space(c),
;

/// The upper-case form of `s`, as `str::to_uppercase` computes it (a Unicode
/// mapping that may change the number of characters).
pub uninterp spec fn upper_case(s: Seq<char>) -> Seq<char>;

/// `str::to_uppercase` is a function of the characters alone; the result is
/// named [`upper_case`].
pub assume_specification[ str::to_uppercase ](s: &str) -> (upper: String)
    ensures
        upper@ == upper_case(s@),
;

/// `String::push` appends exactly one character to the end of the string.
pub assume_specification[ String::push ](s: &mut String, c: char)
    ensures
        final(s)@ == old(s)@.push(c),
;

// ---------------------------------------------------------------------------
// Conversions
// ---------------------------------------------------------------------------

/// The characters of `s`, in order.
pub fn to_chars(s: &str) -> (chars: Vec<char>)
    ensures
        chars@ == s@,
{
    let mut chars: Vec<char> = Vec::new();
    for c in it: s.chars()
        invariant
            chars@ == it.seq().take(it.index() as int),
            it.seq() == s@,
    {
        chars.push(c);
    }
    chars
}

/// The string made of the characters of `chars`, in order.
pub fn to_text(chars: &Vec<char>) -> (s: String)
    ensures
        s@ == chars@,
{
    let mut s = String::new();
    let mut i: usize = 0;
    while i < chars.len()
        invariant
            i <= chars.len(),
            s@ == chars@.take(i as int),
        decreases chars.len() - i,
    {
        s.push(chars[i]);
        i += 1;
    }
    s
}

/// The views of a list of texts.
pub open spec fn texts(items: Seq<Vec<char>>) -> Seq<Seq<char>> {
    items.map_values(|v: Vec<char>| v@)
}

/// The views of a list of strings.
pub open spec fn strings(items: Seq<String>) -> Seq<Seq<char>> {
    items.map_values(|s: String| s@)
}

/// The views of a list of pairs of name and value.
pub open spec fn assignments(items: Seq<(String, String)>) -> Seq<(Seq<char>, Seq<char>)> {
    items.map_values(|p: (String, String)| (p.0@, p.1@))
}

/// The view of an optional string.
pub open spec fn opt_text(s: Option<String>) -> Option<Seq<char>> {
    match s {
        Some(s) => Some(s@),
        None => None,
    }
}

/// Converts every text of `items` to a string.
pub fn to_strings(items: &Vec<Vec<char>>) -> (out: Vec<String>)
    ensures
        strings(out@) == texts(items@),
{
    let mut out: Vec<String> = Vec::new();
    let mut i: usize = 0;
    while i < items.len()
        invariant
            i <= items.len(),
            strings(out@) == texts(items@.take(i as int)),
        decreases items.len() - i,
    {
        let s = to_text(&items[i]);
        proof {
            assert(texts(items@.take(i + 1)) =~= texts(items@.take(i as int)).push(items@[i as int]@));
            assert(strings(out@.push(s)) =~= strings(out@).push(s@));
        }
        out.push(s);
        i += 1;
    }
    proof {
        assert(items@.take(items.len() as int) =~= items@);
    }
    out
}

/// Copies the characters at positions `from..to`.
pub fn slice(text: &Vec<char>, from: usize, to: usize) -> (out: Vec<char>)
    requires
        from <= to <= text.len(),
    ensures
        out@ == text@.subrange(from as int, to as int),
{
    let mut out: Vec<char> = Vec::new();
    let mut i: usize = from;
    while i < to
        invariant
            from <= i <= to <= text.len(),
            out@ == text@.subrange(from as int, i as int),
        decreases to - i,
    {
        out.push(text[i]);
        i += 1;
    }
    out
}

/// Appends the characters of `tail` to `out`.
pub fn append(out: &mut Vec<char>, tail: &Vec<char>)
    ensures
        final(out)@ == old(out)@ + tail@,
{
    let mut i: usize = 0;
    while i < tail.len()
        invariant
            i <= tail.len(),
            out@ == old(out)@ + tail@.take(i as int),
        decreases tail.len() - i,
    {
        out.push(tail[i]);
        i += 1;
    }
    proof {
        assert(tail@.take(tail.len() as int) =~= tail@);
    }
}

/// Whether the two texts hold the same characters.
pub fn same(a: &Vec<char>, b: &Vec<char>) -> (eq: bool)
    ensures
        eq == (a@ == b@),
{
    if a.len() != b.len() {
        return false;
    }
    let mut i: usize = 0;
    while i < a.len()
        invariant
            i <= a.len(),
            a.len() == b.len(),
            a@.take(i as int) == b@.take(i as int),
        decreases a.len() - i,
    {
        if a[i] != b[i] {
            return false;
        }
        proof {
            assert(a@.take(i + 1) =~= a@.take(i as int).push(a@[i as int]));
            assert(b@.take(i + 1) =~= b@.take(i as int).push(b@[i as int]));
        }
        i += 1;
    }
    proof {
        assert(a@.take(a.len() as int) =~= a@);
        assert(b@.take(b.len() as int) =~= b@);
    }
    true
}

/// Whether the two strings hold the same characters.
pub fn equal(a: &str, b: &str) -> (eq: bool)
    ensures
        eq == (a@ == b@),
{
    same(&to_chars(a), &to_chars(b))
}

/// The value of `name` among `entries`: that of the first entry with this
/// name.
pub open spec fn value_of(entries: Seq<(Seq<char>, Seq<char>)>, name: Seq<char>) -> Option<
    Seq<char>,
>
    decreases entries.len(),
{
    if entries.len() == 0 {
        None
    } else if entries[0].0 == name {
        Some(entries[0].1)
    } else {
        value_of(entries.drop_first(), name)
    }
}

/// Looks up the value of `name` among `entries`.
pub fn find_value(entries: &Vec<(String, String)>, name: &Vec<char>) -> (value: Option<Vec<char>>)
    ensures
        match value {
            Some(v) => value_of(assignments(entries@), name@) == Some(v@),
            None => value_of(assignments(entries@), name@).is_none(),
        },
{
    let mut i: usize = 0;
    proof {
        assert(assignments(entries@).skip(0) =~= assignments(entries@));
    }
    while i < entries.len()
        invariant
            i <= entries.len(),
            value_of(assignments(entries@), name@) == value_of(
                assignments(entries@).skip(i as int),
                name@,
            ),
        decreases entries.len() - i,
    {
        let entry = to_chars(entries[i].0.as_str());
        proof {
            assert(assignments(entries@).skip(i as int).drop_first() =~= assignments(
                entries@,
            ).skip(i + 1));
            assert(assignments(entries@).skip(i as int)[0] == (
                entries@[i as int].0@,
                entries@[i as int].1@,
            ));
        }
        if same(&entry, name) {
            return Some(to_chars(entries[i].1.as_str()));
        }
        i += 1;
    }
    None
}

/// How often `c` occurs in `s`.
pub open spec fn count_of(s: Seq<char>, c: char) -> nat
    decreases s.len(),
{
    if s.len() == 0 {
        0
    } else if s.last() == c {
        count_of(s.drop_last(), c) + 1
    } else {
        count_of(s.drop_last(), c)
    }
}

/// Counts how often `c` occurs in `text`.
pub fn count(text: &Vec<char>, c: char) -> (n: usize)
    ensures
        n == count_of(text@, c),
{
    let mut n: usize = 0;
    let mut i: usize = 0;
    while i < text.len()
        invariant
            i <= text.len(),
            n == count_of(text@.take(i as int), c),
            n <= i,
        decreases text.len() - i,
    {
        proof {
            assert(text@.take(i + 1).drop_last() =~= text@.take(i as int));
        }
        if text[i] == c {
            n += 1;
        }
        i += 1;
    }
    proof {
        assert(text@.take(text.len() as int) =~= text@);
    }
    n
}

/// A count is the sum of the counts of the parts.
pub proof fn lemma_count_of_parts(a: Seq<char>, b: Seq<char>, c: char)
    ensures
        count_of(a + b, c) == count_of(a, c) + count_of(b, c),
    decreases b.len(),
{
    if b.len() == 0 {
        assert(a + b =~= a);
    } else {
        assert((a + b).drop_last() =~= a + b.drop_last());
        lemma_count_of_parts(a, b.drop_last(), c);
    }
}

// ---------------------------------------------------------------------------
// Prefixes and suffixes
// ---------------------------------------------------------------------------

/// Whether `text` begins with `prefix`.
pub fn starts_with(text: &Vec<char>, prefix: &Vec<char>) -> (yes: bool)
    ensures
        yes == prefix@.is_prefix_of(text@),
{
    occurs_at(text, 0, prefix)
}

/// Whether `pattern` stands in `s` at position `at`.
pub open spec fn found_at(s: Seq<char>, at: int, pattern: Seq<char>) -> bool {
    0 <= at && at + pattern.len() <= s.len() && s.subrange(at, at + pattern.len()) == pattern
}

/// Whether `pattern` stands in `text` at position `at`.
pub fn occurs_at(text: &Vec<char>, at: usize, pattern: &Vec<char>) -> (yes: bool)
    requires
        at <= text.len(),
    ensures
        yes == found_at(text@, at as int, pattern@),
{
    if pattern.len() > text.len() - at {
        return false;
    }
    let mut i: usize = 0;
    while i < pattern.len()
        invariant
            i <= pattern.len(),
            at + pattern.len() <= text.len(),
            text@.subrange(at as int, at + i) == pattern@.take(i as int),
        decreases pattern.len() - i,
    {
        if text[at + i] != pattern[i] {
            proof {
                assert(text@.subrange(at as int, at + pattern.len())[i as int] != pattern@[i as int]);
            }
            return false;
        }
        proof {
            assert(text@.subrange(at as int, at + i + 1) =~= text@.subrange(at as int, at + i).push(
                text@[at + i],
            ));
            assert(pattern@.take(i + 1) =~= pattern@.take(i as int).push(pattern@[i as int]));
        }
        i += 1;
    }
    proof {
        assert(pattern@.take(pattern.len() as int) =~= pattern@);
    }
    true
}

// ---------------------------------------------------------------------------
// Trimming
// ---------------------------------------------------------------------------

/// `s` without its leading white space.
pub open spec fn trimmed_start(s: Seq<char>) -> Seq<char>
    decreases s.len(),
{
    if s.len() > 0 && white_space(s[0]) {
        trimmed_start(s.drop_first())
    } else {
        s
    }
}

/// `s` without its trailing white space.
pub open spec fn trimmed_end(s: Seq<char>) -> Seq<char>
    decreases s.len(),
{
    if s.len() > 0 && white_space(s.last()) {
        trimmed_end(s.drop_last())
    } else {
        s
    }
}

/// `s` without its leading and trailing white space.
pub open spec fn trimmed(s: Seq<char>) -> Seq<char> {
    trimmed_end(trimmed_start(s))
}

/// `s` without every trailing occurrence of `c`.
pub open spec fn without_trailing(s: Seq<char>, c: char) -> Seq<char>
    decreases s.len(),
{
    if s.len() > 0 && s.last() == c {
        without_trailing(s.drop_last(), c)
    } else {
        s
    }
}

/// Whether `c` does not occur in `s`.
pub open spec fn free_of(s: Seq<char>, c: char) -> bool {
    forall|i: int| 0 <= i < s.len() ==> s[i] != c
}

/// Trimming puts no character into a text.
pub proof fn lemma_trimmed_is_free_of(s: Seq<char>, c: char)
    requires
        free_of(s, c),
    ensures
        free_of(trimmed_start(s), c),
        free_of(trimmed_end(s), c),
        free_of(trimmed(s), c),
    decreases s.len(),
{
    if s.len() > 0 {
        assert(free_of(s.drop_first(), c)) by {
            assert forall|i: int| 0 <= i < s.drop_first().len() implies s.drop_first()[i] != c by {
                assert(s.drop_first()[i] == s[i + 1]);
            }
        }
        assert(free_of(s.drop_last(), c)) by {
            assert forall|i: int| 0 <= i < s.drop_last().len() implies s.drop_last()[i] != c by {
                assert(s.drop_last()[i] == s[i]);
            }
        }
        lemma_trimmed_is_free_of(s.drop_first(), c);
        lemma_trimmed_is_free_of(s.drop_last(), c);
    }
    lemma_trimmed_end_is_free_of(trimmed_start(s), c);
}

proof fn lemma_trimmed_end_is_free_of(s: Seq<char>, c: char)
    requires
        free_of(s, c),
    ensures
        free_of(trimmed_end(s), c),
    decreases s.len(),
{
    if s.len() > 0 {
        assert(free_of(s.drop_last(), c)) by {
            assert forall|i: int| 0 <= i < s.drop_last().len() implies s.drop_last()[i] != c by {
                assert(s.drop_last()[i] == s[i]);
            }
        }
        lemma_trimmed_end_is_free_of(s.drop_last(), c);
    }
}

/// Trimming makes no text longer.
pub proof fn lemma_trimmed_is_no_longer(s: Seq<char>)
    ensures
        trimmed_start(s).len() <= s.len(),
        trimmed_end(s).len() <= s.len(),
        trimmed(s).len() <= s.len(),
    decreases s.len(),
{
    if s.len() > 0 {
        lemma_trimmed_is_no_longer(s.drop_first());
        lemma_trimmed_is_no_longer(s.drop_last());
    }
    lemma_trimmed_end_is_no_longer(trimmed_start(s));
}

proof fn lemma_trimmed_end_is_no_longer(s: Seq<char>)
    ensures
        trimmed_end(s).len() <= s.len(),
    decreases s.len(),
{
    if s.len() > 0 {
        lemma_trimmed_end_is_no_longer(s.drop_last());
    }
}

/// Removes leading and trailing white space.
pub fn trim(text: &Vec<char>) -> (out: Vec<char>)
    ensures
        out@ == trimmed(text@),
{
    let mut start: usize = 0;
    proof {
        assert(text@.skip(0) =~= text@);
    }
    while start < text.len() && text[start].is_whitespace()
        invariant
            start <= text.len(),
            trimmed_start(text@) == trimmed_start(text@.skip(start as int)),
        decreases text.len() - start,
    {
        proof {
            assert(text@.skip(start as int).drop_first() =~= text@.skip(start + 1));
        }
        start += 1;
    }
    proof {
        assert(text@.skip(start as int) =~= text@.subrange(start as int, text.len() as int));
    }
    let mut end: usize = text.len();
    while end > start && text[end - 1].is_whitespace()
        invariant
            start <= end <= text.len(),
            trimmed(text@) == trimmed_end(text@.subrange(start as int, end as int)),
        decreases end,
    {
        proof {
            assert(text@.subrange(start as int, end as int).drop_last() =~= text@.subrange(
                start as int,
                end - 1,
            ));
        }
        end -= 1;
    }
    slice(text, start, end)
}

/// Removes every trailing occurrence of `c`.
pub fn trim_trailing(text: &Vec<char>, c: char) -> (out: Vec<char>)
    ensures
        out@ == without_trailing(text@, c),
{
    let mut end: usize = text.len();
    proof {
        assert(text@.take(text.len() as int) =~= text@);
    }
    while end > 0 && text[end - 1] == c
        invariant
            end <= text.len(),
            without_trailing(text@, c) == without_trailing(text@.take(end as int), c),
        decreases end,
    {
        proof {
            assert(text@.take(end as int).drop_last() =~= text@.take(end - 1));
        }
        end -= 1;
    }
    proof {
        assert(text@.take(end as int) =~= text@.subrange(0, end as int));
    }
    slice(text, 0, end)
}

// ---------------------------------------------------------------------------
// Splitting
// ---------------------------------------------------------------------------

/// Reading `s` from the left: the fields closed so far by a separator, and
/// the field still open.
pub open spec fn split_state(s: Seq<char>, sep: char) -> (Seq<Seq<char>>, Seq<char>)
    decreases s.len(),
{
    if s.len() == 0 {
        (Seq::empty(), Seq::empty())
    } else {
        let (closed, open) = split_state(s.drop_last(), sep);
        if s.last() == sep {
            (closed.push(open), Seq::empty())
        } else {
            (closed, open.push(s.last()))
        }
    }
}

/// The fields of `s` between occurrences of `sep`: always at least one, and
/// one more than there are separators.
pub open spec fn fields(s: Seq<char>, sep: char) -> Seq<Seq<char>> {
    split_state(s, sep).0.push(split_state(s, sep).1)
}

/// The fields of `s` between occurrences of `sep`, each trimmed.
pub open spec fn trimmed_fields(s: Seq<char>, sep: char) -> Seq<Seq<char>> {
    fields(s, sep).map_values(|f: Seq<char>| trimmed(f))
}

/// Splitting and trimming put no character into a field.
pub proof fn lemma_fields_are_free_of(s: Seq<char>, sep: char, c: char)
    requires
        free_of(s, c),
    ensures
        forall|i: int|
            0 <= i < trimmed_fields(s, sep).len() ==> free_of(
                #[trigger] trimmed_fields(s, sep)[i],
                c,
            ),
{
    lemma_split_state_is_free_of(s, sep, c);
    assert forall|i: int| 0 <= i < trimmed_fields(s, sep).len() implies free_of(
        #[trigger] trimmed_fields(s, sep)[i],
        c,
    ) by {
        lemma_trimmed_is_free_of(fields(s, sep)[i], c);
    }
}

proof fn lemma_split_state_is_free_of(s: Seq<char>, sep: char, c: char)
    requires
        free_of(s, c),
    ensures
        forall|i: int|
            0 <= i < split_state(s, sep).0.len() ==> free_of(
                #[trigger] split_state(s, sep).0[i],
                c,
            ),
        free_of(split_state(s, sep).1, c),
    decreases s.len(),
{
    if s.len() > 0 {
        assert(free_of(s.drop_last(), c)) by {
            assert forall|i: int| 0 <= i < s.drop_last().len() implies s.drop_last()[i] != c by {
                assert(s.drop_last()[i] == s[i]);
            }
        }
        lemma_split_state_is_free_of(s.drop_last(), sep, c);
    }
}

/// No field is longer than the text that was split.
pub proof fn lemma_fields_are_no_longer(s: Seq<char>, sep: char)
    ensures
        forall|i: int|
            0 <= i < fields(s, sep).len() ==> (#[trigger] fields(s, sep)[i]).len() <= s.len(),
        forall|i: int|
            0 <= i < trimmed_fields(s, sep).len() ==> (#[trigger] trimmed_fields(s, sep)[i]).len()
                <= s.len(),
{
    lemma_split_state_is_no_longer(s, sep);
    assert forall|i: int| 0 <= i < trimmed_fields(s, sep).len() implies (#[trigger] trimmed_fields(
        s,
        sep,
    )[i]).len() <= s.len() by {
        lemma_trimmed_is_no_longer(fields(s, sep)[i]);
    }
}

proof fn lemma_split_state_is_no_longer(s: Seq<char>, sep: char)
    ensures
        forall|i: int|
            0 <= i < split_state(s, sep).0.len() ==> (#[trigger] split_state(s, sep).0[i]).len()
                <= s.len(),
        split_state(s, sep).1.len() <= s.len(),
    decreases s.len(),
{
    if s.len() > 0 {
        lemma_split_state_is_no_longer(s.drop_last(), sep);
    }
}

/// Splits `text` at every `sep` and trims each field.
pub fn split_trimmed(text: &Vec<char>, sep: char) -> (out: Vec<Vec<char>>)
    ensures
        texts(out@) == trimmed_fields(text@, sep),
        out.len() >= 1,
{
    let mut out: Vec<Vec<char>> = Vec::new();
    let mut open: Vec<char> = Vec::new();
    let mut i: usize = 0;
    while i < text.len()
        invariant
            i <= text.len(),
            texts(out@) == split_state(text@.take(i as int), sep).0.map_values(
                |f: Seq<char>| trimmed(f),
            ),
            open@ == split_state(text@.take(i as int), sep).1,
        decreases text.len() - i,
    {
        proof {
            assert(text@.take(i + 1).drop_last() =~= text@.take(i as int));
        }
        let c = text[i];
        if c == sep {
            let field = trim(&open);
            proof {
                let closed = split_state(text@.take(i as int), sep).0;
                assert(texts(out@.push(field)) =~= texts(out@).push(field@));
                assert(closed.push(open@).map_values(|f: Seq<char>| trimmed(f)) =~= closed.map_values(
                    |f: Seq<char>| trimmed(f),
                ).push(trimmed(open@)));
            }
            out.push(field);
            open = Vec::new();
        } else {
            open.push(c);
        }
        i += 1;
    }
    let field = trim(&open);
    proof {
        assert(text@.take(text.len() as int) =~= text@);
        let closed = split_state(text@, sep).0;
        assert(texts(out@.push(field)) =~= texts(out@).push(field@));
        assert(closed.push(open@).map_values(|f: Seq<char>| trimmed(f)) =~= closed.map_values(
            |f: Seq<char>| trimmed(f),
        ).push(trimmed(open@)));
    }
    out.push(field);
    out
}

/// Splits `text` at every `sep`.
pub fn split(text: &Vec<char>, sep: char) -> (out: Vec<Vec<char>>)
    ensures
        texts(out@) == fields(text@, sep),
        out.len() >= 1,
{
    let mut out: Vec<Vec<char>> = Vec::new();
    let mut open: Vec<char> = Vec::new();
    let mut i: usize = 0;
    proof {
        assert(texts(out@) =~= Seq::<Seq<char>>::empty());
    }
    while i < text.len()
        invariant
            i <= text.len(),
            (texts(out@), open@) == split_state(text@.take(i as int), sep),
        decreases text.len() - i,
    {
        proof {
            assert(text@.take(i + 1).drop_last() =~= text@.take(i as int));
        }
        let c = text[i];
        if c == sep {
            proof {
                assert(texts(out@.push(open)) =~= texts(out@).push(open@));
            }
            out.push(open);
            open = Vec::new();
        } else {
            open.push(c);
        }
        i += 1;
    }
    proof {
        assert(text@.take(text.len() as int) =~= text@);
        assert(texts(out@.push(open)) =~= texts(out@).push(open@));
    }
    out.push(open);
    out
}

/// The part of `s` before the first occurrence of `c`; all of `s` where `c`
/// does not occur.
pub open spec fn before_first(s: Seq<char>, c: char) -> Seq<char>
    decreases s.len(),
{
    if s.len() == 0 || s[0] == c {
        Seq::empty()
    } else {
        seq![s[0]] + before_first(s.drop_first(), c)
    }
}

/// Copies `text` up to the first occurrence of `c`.
pub fn take_before(text: &Vec<char>, c: char) -> (out: Vec<char>)
    ensures
        out@ == before_first(text@, c),
{
    let mut out: Vec<char> = Vec::new();
    let mut i: usize = 0;
    proof {
        assert(text@.skip(0) =~= text@);
        assert(Seq::<char>::empty() + before_first(text@, c) =~= before_first(text@, c));
    }
    while i < text.len() && text[i] != c
        invariant
            i <= text.len(),
            before_first(text@, c) == out@ + before_first(text@.skip(i as int), c),
        decreases text.len() - i,
    {
        proof {
            assert(text@.skip(i as int).drop_first() =~= text@.skip(i + 1));
            assert(out@.push(text@[i as int]) + before_first(text@.skip(i + 1), c) =~= out@ + (
            seq![text@[i as int]] + before_first(text@.skip(i + 1), c)));
        }
        out.push(text[i]);
        i += 1;
    }
    proof {
        assert(out@ + Seq::<char>::empty() =~= out@);
    }
    out
}

// ---------------------------------------------------------------------------
// Replacing and joining
// ---------------------------------------------------------------------------

/// `s` with every occurrence of `pattern` replaced by `with`, found from the
/// left and without overlap. An empty pattern occurs nowhere.
pub open spec fn replaced(s: Seq<char>, pattern: Seq<char>, with: Seq<char>) -> Seq<char>
    decreases s.len(),
{
    if pattern.len() == 0 || s.len() == 0 {
        s
    } else if found_at(s, 0, pattern) {
        with + replaced(s.skip(pattern.len() as int), pattern, with)
    } else {
        seq![s[0]] + replaced(s.drop_first(), pattern, with)
    }
}

/// Replaces every occurrence of `pattern` in `text` by `with`.
pub fn replace(text: &Vec<char>, pattern: &Vec<char>, with: &Vec<char>) -> (out: Vec<char>)
    ensures
        out@ == replaced(text@, pattern@, with@),
{
    let mut out: Vec<char> = Vec::new();
    if pattern.len() == 0 {
        append(&mut out, text);
        return out;
    }
    let mut i: usize = 0;
    proof {
        assert(text@.skip(0) =~= text@);
        assert(Seq::<char>::empty() + replaced(text@, pattern@, with@) =~= replaced(
            text@,
            pattern@,
            with@,
        ));
    }
    while i < text.len()
        invariant
            i <= text.len(),
            pattern.len() > 0,
            replaced(text@, pattern@, with@) == out@ + replaced(
                text@.skip(i as int),
                pattern@,
                with@,
            ),
        decreases text.len() - i,
    {
        let ghost rest = text@.skip(i as int);
        if occurs_at(text, i, pattern) {
            proof {
                assert(rest.subrange(0, pattern.len() as int) =~= text@.subrange(
                    i as int,
                    i + pattern.len(),
                ));
                assert(rest.skip(pattern.len() as int) =~= text@.skip(i + pattern.len()));
                assert((out@ + with@) + replaced(text@.skip(i + pattern.len()), pattern@, with@)
                    =~= out@ + (with@ + replaced(text@.skip(i + pattern.len()), pattern@, with@)));
            }
            append(&mut out, with);
            i += pattern.len();
        } else {
            proof {
                if i + pattern.len() <= text.len() {
                    assert(rest.subrange(0, pattern.len() as int) =~= text@.subrange(
                        i as int,
                        i + pattern.len(),
                    ));
                }
                assert(rest.drop_first() =~= text@.skip(i + 1));
                assert(out@.push(text@[i as int]) + replaced(text@.skip(i + 1), pattern@, with@)
                    =~= out@ + (seq![text@[i as int]] + replaced(
                    text@.skip(i + 1),
                    pattern@,
                    with@,
                )));
            }
            out.push(text[i]);
            i += 1;
        }
    }
    proof {
        assert(out@ + Seq::<char>::empty() =~= out@);
    }
    out
}

/// The texts of `parts` in order, with `sep` between neighbours.
pub open spec fn joined(parts: Seq<Seq<char>>, sep: Seq<char>) -> Seq<char>
    decreases parts.len(),
{
    if parts.len() == 0 {
        Seq::empty()
    } else if parts.len() == 1 {
        parts[0]
    } else {
        joined(parts.drop_last(), sep) + sep + parts.last()
    }
}

/// Joins `parts[from..]` with `sep` between neighbours.
pub fn join_from(parts: &Vec<Vec<char>>, from: usize, sep: &Vec<char>) -> (out: Vec<char>)
    requires
        from <= parts.len(),
    ensures
        out@ == joined(texts(parts@).skip(from as int), sep@),
{
    let mut out: Vec<char> = Vec::new();
    let mut i: usize = from;
    while i < parts.len()
        invariant
            from <= i <= parts.len(),
            out@ == joined(texts(parts@).subrange(from as int, i as int), sep@),
        decreases parts.len() - i,
    {
        proof {
            assert(texts(parts@).subrange(from as int, i + 1).drop_last() =~= texts(
                parts@,
            ).subrange(from as int, i as int));
        }
        if i > from {
            append(&mut out, sep);
        }
        append(&mut out, &parts[i]);
        i += 1;
    }
    proof {
        assert(texts(parts@).subrange(from as int, parts.len() as int) =~= texts(parts@).skip(
            from as int,
        ));
    }
    out
}

} // verus!
