//! What a page of key cards computes: the text by which a card is searched,
//! the label of a key, and where the arrow keys lead on the grid of cards.

use crate::models::{Keybind, KeybindView};
use crate::text::{
    append, found_at, joined, occurs_at, strings, to_chars, to_text, upper_case,
};
use crate::ui::widgets::{display_of, get_modifier_display};
use vstd::prelude::*;

verus! {

/// The lower-case form of `s`, as `str::to_lowercase` computes it.
pub uninterp spec fn lower_case(s: Seq<char>) -> Seq<char>;

/// `str::to_lowercase` is a function of the characters alone; the result is
/// named [`lower_case`].
pub assume_specification[ str::to_lowercase ](s: &str) -> (lower: String)
    ensures
        lower@ == lower_case(s@),
;

/// Whether `c` has the Unicode `Alphabetic` property, as
/// `char::is_alphabetic` reports it.
pub uninterp spec fn alphabetic(c: char) -> bool;

/// `char::is_alphabetic` is a function of the character alone; the result
/// is named [`alphabetic`].
pub assume_specification[ char::is_alphabetic ](c: char) -> (b: bool)
    ensures
        b == alphabetic(c),
;

// ---------------------------------------------------------------------------
// Search
// ---------------------------------------------------------------------------

/// The text of an optional description; empty where there is none.
pub open spec fn described(description: Option<Seq<char>>) -> Seq<char> {
    match description {
        Some(text) => text,
        None => Seq::empty(),
    }
}

/// The text by which a card is found: modifiers, key, command and
/// description, each set off by one space, in lower case.
pub open spec fn search_text_of(bind: KeybindView) -> Seq<char> {
    lower_case(
        joined(bind.mods, seq![' ']) + seq![' '] + bind.key + seq![' '] + bind.command + seq![' ']
            + described(bind.description),
    )
}

/// The text by which the card of `bind` is found.
pub fn search_text(bind: &Keybind) -> (out: String)
    ensures
        out@ == search_text_of(bind@),
{
    let mut text: Vec<char> = Vec::new();
    let mut i: usize = 0;
    proof {
        assert(strings(bind.mods@).take(0) =~= Seq::empty());
    }
    while i < bind.mods.len()
        invariant
            i <= bind.mods.len(),
            text@ == joined(strings(bind.mods@).take(i as int), seq![' ']),
        decreases bind.mods.len() - i,
    {
        proof {
            assert(strings(bind.mods@).take(i + 1).drop_last() =~= strings(bind.mods@).take(
                i as int,
            ));
            assert(strings(bind.mods@).take(i + 1).last() == bind.mods@[i as int]@);
        }
        if i > 0 {
            text.push(' ');
        }
        append(&mut text, &to_chars(bind.mods[i].as_str()));
        proof {
            if i > 0 {
                assert(text@ =~= joined(strings(bind.mods@).take(i as int), seq![' ']) + seq![' ']
                    + bind.mods@[i as int]@);
            } else {
                assert(text@ =~= bind.mods@[i as int]@);
            }
        }
        i += 1;
    }
    proof {
        assert(strings(bind.mods@).take(bind.mods.len() as int) =~= strings(bind.mods@));
    }
    let ghost mods = text@;
    text.push(' ');
    append(&mut text, &to_chars(bind.key.as_str()));
    text.push(' ');
    append(&mut text, &to_chars(bind.command.as_str()));
    text.push(' ');
    match &bind.description {
        Some(description) => {
            append(&mut text, &to_chars(description.as_str()));
        },
        None => {},
    }
    proof {
        assert(text@ =~= mods + seq![' '] + bind@.key + seq![' '] + bind@.command + seq![' ']
            + described(bind@.description));
    }
    to_text(&text).to_lowercase()
}

/// Whether `pattern` stands somewhere in `s`.
pub open spec fn occurs_in(s: Seq<char>, pattern: Seq<char>) -> bool {
    exists|at: int| found_at(s, at, pattern)
}

/// Whether a card is shown for a query: every card for the empty query,
/// else the cards whose search text holds the query in lower case.
pub open spec fn shown_for(search_text: Seq<char>, query: Seq<char>) -> bool {
    lower_case(query).len() == 0 || occurs_in(search_text, lower_case(query))
}

/// Whether the card with this search text is shown for `query`.
pub fn is_shown(search_text: &str, query: &str) -> (shown: bool)
    ensures
        shown == shown_for(search_text@, query@),
{
    let wanted = to_chars(query.to_lowercase().as_str());
    if wanted.len() == 0 {
        return true;
    }
    let text = to_chars(search_text);
    let mut at: usize = 0;
    while at < text.len()
        invariant
            at <= text.len(),
            text@ == search_text@,
            wanted@ == lower_case(query@),
            wanted.len() > 0,
            forall|k: int| 0 <= k < at ==> !found_at(text@, k, wanted@),
        decreases text.len() - at,
    {
        if occurs_at(&text, at, &wanted) {
            proof {
                assert(found_at(text@, at as int, wanted@));
            }
            return true;
        }
        at += 1;
    }
    proof {
        assert forall|k: int| !found_at(text@, k, wanted@) by {}
    }
    false
}

/// The label of a key: what stands for it on a key cap; a single letter is
/// shown in upper case.
pub open spec fn key_label_of(key: Seq<char>) -> Seq<char> {
    let shown = display_of(key).0;
    if shown.len() == 1 && alphabetic(shown[0]) {
        upper_case(shown)
    } else {
        shown
    }
}

/// The label of the key cap of `key`.
pub fn key_label(key: &str) -> (label: String)
    ensures
        label@ == key_label_of(key@),
{
    let (shown, _) = get_modifier_display(key);
    let letters = to_chars(shown);
    if letters.len() == 1 && letters[0].is_alphabetic() {
        shown.to_uppercase()
    } else {
        to_text(&letters)
    }
}

// ---------------------------------------------------------------------------
// The grid of cards
// ---------------------------------------------------------------------------

/// An arrow key.
#[derive(Debug, Clone, Copy)]
pub enum Direction {
    Up,
    Down,
    Left,
    Right,
}

/// Whether a card at `a` is read no later than a card at `b`: places are
/// pairs of `y` and `x`, read row by row and in a row from the left.
pub open spec fn reads_before(a: (i32, i32), b: (i32, i32)) -> bool {
    a.0 < b.0 || (a.0 == b.0 && a.1 <= b.1)
}

/// `order` with `card` put in behind the last card that is read no later
/// than it.
pub open spec fn inserted(order: Seq<usize>, card: usize, places: Seq<(i32, i32)>) -> Seq<usize>
    decreases order.len(),
{
    if order.len() == 0 {
        seq![card]
    } else if reads_before(places[order.last() as int], places[card as int]) {
        order.push(card)
    } else {
        inserted(order.drop_last(), card, places).push(order.last())
    }
}

/// The first `n` cards in reading order; cards at the same place stay in
/// the order of their numbers.
pub open spec fn reading_order(places: Seq<(i32, i32)>, n: nat) -> Seq<usize>
    decreases n,
{
    if n == 0 {
        Seq::empty()
    } else {
        inserted(reading_order(places, (n - 1) as nat), (n - 1) as usize, places)
    }
}

/// Whether two heights are more than 30 apart: the cards are then in
/// different rows.
pub open spec fn apart(a: i32, b: i32) -> bool {
    a - b > 30 || b - a > 30
}

/// Reading the cards of `order` in turn: the rows closed so far, and the
/// row still open. A card opens a new row where it is apart from the card
/// before it.
pub open spec fn rows_state(order: Seq<usize>, places: Seq<(i32, i32)>) -> (
    Seq<Seq<usize>>,
    Seq<usize>,
)
    decreases order.len(),
{
    if order.len() == 0 {
        (Seq::empty(), Seq::empty())
    } else {
        let (closed, open) = rows_state(order.drop_last(), places);
        let card = order.last();
        if open.len() > 0 && apart(places[card as int].0, places[open.last() as int].0) {
            (closed.push(open), seq![card])
        } else {
            (closed, open.push(card))
        }
    }
}

/// The rows of the grid, each a list of cards from the left.
pub open spec fn rows_of(order: Seq<usize>, places: Seq<(i32, i32)>) -> Seq<Seq<usize>> {
    let (closed, open) = rows_state(order, places);
    if open.len() > 0 {
        closed.push(open)
    } else {
        closed
    }
}

/// The grid of the cards at `places`.
pub open spec fn grid_of(places: Seq<(i32, i32)>) -> Seq<Seq<usize>> {
    rows_of(reading_order(places, places.len()), places)
}

/// The position of `card` in `row` from `from` on; the length of the row
/// where it is not there.
pub open spec fn column_from(row: Seq<usize>, card: usize, from: int) -> int
    decreases row.len() - from,
{
    if from < 0 || from >= row.len() {
        row.len() as int
    } else if row[from] == card {
        from
    } else {
        column_from(row, card, from + 1)
    }
}

/// Row and column of `card` in the rows from `from` on.
pub open spec fn located_from(grid: Seq<Seq<usize>>, card: usize, from: int) -> Option<(int, int)>
    decreases grid.len() - from,
{
    if from < 0 || from >= grid.len() {
        None
    } else if column_from(grid[from], card, 0) < grid[from].len() {
        Some((from, column_from(grid[from], card, 0)))
    } else {
        located_from(grid, card, from + 1)
    }
}

/// Row and column of the selected card, if one is selected and on the grid.
pub open spec fn located(grid: Seq<Seq<usize>>, selected: Option<usize>) -> Option<(int, int)> {
    match selected {
        Some(card) => located_from(grid, card, 0),
        None => None,
    }
}

/// The smaller of two numbers.
pub open spec fn least(a: int, b: int) -> int {
    if a <= b {
        a
    } else {
        b
    }
}

/// The card to which an arrow key leads from the card at `at`. Up and down
/// keep the column, or take the last card of a shorter row, and wrap from
/// the first row to the last and back; left and right wrap within the row.
/// Without a card to start from, the first card is taken.
pub open spec fn target(grid: Seq<Seq<usize>>, at: Option<(int, int)>, direction: Direction) -> usize {
    match at {
        None => 0,
        Some((row, col)) => match direction {
            Direction::Up => {
                let to = if row > 0 {
                    row - 1
                } else {
                    grid.len() - 1
                };
                grid[to][least(col, grid[to].len() - 1)]
            },
            Direction::Down => {
                let to = if row < grid.len() - 1 {
                    row + 1
                } else {
                    0
                };
                grid[to][least(col, grid[to].len() - 1)]
            },
            Direction::Left => if col > 0 {
                grid[row][col - 1]
            } else {
                grid[row][grid[row].len() - 1]
            },
            Direction::Right => if col < grid[row].len() - 1 {
                grid[row][col + 1]
            } else {
                grid[row][0]
            },
        },
    }
}

/// The card to select after an arrow key, the visible cards being at
/// `places` and `selected` being the card selected before. `None` where
/// there is no card.
pub open spec fn navigated(
    places: Seq<(i32, i32)>,
    selected: Option<usize>,
    direction: Direction,
) -> Option<usize> {
    if places.len() == 0 {
        None
    } else {
        Some(target(grid_of(places), located(grid_of(places), selected), direction))
    }
}

/// Whether every card of `order` is one of the first `n`.
pub open spec fn within(order: Seq<usize>, n: int) -> bool {
    forall|k: int| 0 <= k < order.len() ==> (#[trigger] order[k]) < n
}

/// Whether `grid` is a grid of the first `n` cards: no row is empty, and
/// every card is one of the first `n`.
pub open spec fn is_grid(grid: Seq<Seq<usize>>, n: int) -> bool {
    forall|r: int|
        0 <= r < grid.len() ==> (#[trigger] grid[r]).len() > 0 && within(grid[r], n)
}

/// Puts the cards into reading order.
fn order_cards(places: &Vec<(i32, i32)>) -> (order: Vec<usize>)
    ensures
        order@ == reading_order(places@, places.len() as nat),
        order.len() == places.len(),
        within(order@, places.len() as int),
{
    let mut order: Vec<usize> = Vec::new();
    let mut n: usize = 0;
    while n < places.len()
        invariant
            n <= places.len(),
            order@ == reading_order(places@, n as nat),
            order.len() == n,
            within(order@, n as int),
        decreases places.len() - n,
    {
        let here = places[n];
        let mut k: usize = order.len();
        proof {
            assert(order@.take(k as int) =~= order@);
            assert(inserted(order@, n, places@) =~= inserted(order@.take(k as int), n, places@)
                + order@.skip(k as int));
        }
        while k > 0 && !(places[order[k - 1]].0 < here.0 || (places[order[k - 1]].0 == here.0
            && places[order[k - 1]].1 <= here.1))
            invariant
                k <= order.len(),
                n < places.len(),
                here == places@[n as int],
                within(order@, n as int),
                inserted(order@, n, places@) == inserted(order@.take(k as int), n, places@)
                    + order@.skip(k as int),
            decreases k,
        {
            proof {
                let upto = order@.take(k as int);
                assert(upto.last() == order@[k - 1]);
                assert(upto.drop_last() =~= order@.take(k - 1));
                assert(inserted(order@.take(k - 1), n, places@).push(order@[k - 1]) + order@.skip(
                    k as int,
                ) =~= inserted(order@.take(k - 1), n, places@) + order@.skip(k - 1));
            }
            k -= 1;
        }
        proof {
            let upto = order@.take(k as int);
            if k > 0 {
                assert(upto.last() == order@[k - 1]);
            }
            assert(inserted(upto, n, places@) =~= upto.push(n));
            assert(upto.push(n) + order@.skip(k as int) =~= order@.insert(k as int, n));
            assert forall|j: int| 0 <= j < order@.insert(k as int, n).len() implies (
            #[trigger] order@.insert(k as int, n)[j]) < n + 1 by {
                if j < k {
                    assert(order@.insert(k as int, n)[j] == order@[j]);
                } else if j > k {
                    assert(order@.insert(k as int, n)[j] == order@[j - 1]);
                }
            }
        }
        order.insert(k, n);
        n += 1;
    }
    order
}

/// Groups the cards, given in reading order, into rows.
fn group_rows(order: &Vec<usize>, places: &Vec<(i32, i32)>) -> (grid: Vec<Vec<usize>>)
    requires
        within(order@, places.len() as int),
    ensures
        rows(grid@) == rows_of(order@, places@),
        is_grid(rows(grid@), places.len() as int),
        order.len() > 0 ==> grid.len() > 0,
{
    let mut closed: Vec<Vec<usize>> = Vec::new();
    let mut open: Vec<usize> = Vec::new();
    let mut i: usize = 0;
    proof {
        assert(rows(closed@) =~= Seq::<Seq<usize>>::empty());
        assert(order@.take(0) =~= Seq::<usize>::empty());
    }
    while i < order.len()
        invariant
            i <= order.len(),
            within(order@, places.len() as int),
            (rows(closed@), open@) == rows_state(order@.take(i as int), places@),
            is_grid(rows(closed@), places.len() as int),
            within(open@, places.len() as int),
            i > 0 ==> open.len() > 0,
        decreases order.len() - i,
    {
        proof {
            assert(order@.take(i + 1).drop_last() =~= order@.take(i as int));
            assert(order@.take(i + 1).last() == order@[i as int]);
        }
        let card = order[i];
        let mut starts_row = false;
        if open.len() > 0 {
            let y = places[card].0 as i64;
            let before = places[open[open.len() - 1]].0 as i64;
            starts_row = y - before > 30 || before - y > 30;
        }
        if starts_row {
            proof {
                assert(rows(closed@.push(open)) =~= rows(closed@).push(open@));
            }
            closed.push(open);
            open = Vec::new();
            open.push(card);
            proof {
                assert(open@ =~= seq![card]);
            }
        } else {
            open.push(card);
        }
        i += 1;
    }
    proof {
        assert(order@.take(order.len() as int) =~= order@);
    }
    if open.len() > 0 {
        proof {
            assert(rows(closed@.push(open)) =~= rows(closed@).push(open@));
        }
        closed.push(open);
    }
    closed
}

/// The views of the rows of a grid.
pub open spec fn rows(grid: Seq<Vec<usize>>) -> Seq<Seq<usize>> {
    grid.map_values(|row: Vec<usize>| row@)
}

/// Finds the row and the column of `card`.
fn locate(grid: &Vec<Vec<usize>>, card: usize) -> (at: Option<(usize, usize)>)
    ensures
        match at {
            Some((row, col)) => {
                &&& located_from(rows(grid@), card, 0) == Some((row as int, col as int))
                &&& row < grid.len()
                &&& col < grid@[row as int].len()
            },
            None => located_from(rows(grid@), card, 0).is_none(),
        },
{
    let mut r: usize = 0;
    while r < grid.len()
        invariant
            r <= grid.len(),
            located_from(rows(grid@), card, 0) == located_from(rows(grid@), card, r as int),
        decreases grid.len() - r,
    {
        let row = &grid[r];
        proof {
            assert(rows(grid@)[r as int] == row@);
        }
        let mut c: usize = 0;
        while c < row.len() && row[c] != card
            invariant
                c <= row.len(),
                column_from(row@, card, 0) == column_from(row@, card, c as int),
            decreases row.len() - c,
        {
            c += 1;
        }
        if c < row.len() {
            return Some((r, c));
        }
        r += 1;
    }
    None
}

/// The card to which an arrow key leads from the card at `at`.
pub fn step(grid: &Vec<Vec<usize>>, at: Option<(usize, usize)>, direction: Direction) -> (card:
    usize)
    requires
        grid.len() > 0,
        forall|r: int| 0 <= r < grid.len() ==> (#[trigger] grid@[r]).len() > 0,
        at matches Some((row, col)) ==> row < grid.len() && col < grid@[row as int].len(),
    ensures
        card == target(rows(grid@), pair_view(at), direction),
{
    proof {
        assert forall|r: int| 0 <= r < grid.len() implies (#[trigger] rows(grid@)[r]) == grid@[r]@ by {}
    }
    match at {
        None => 0,
        Some((row, col)) => match direction {
            Direction::Up => {
                let to = if row > 0 {
                    row - 1
                } else {
                    grid.len() - 1
                };
                let line = &grid[to];
                if col < line.len() {
                    line[col]
                } else {
                    line[line.len() - 1]
                }
            },
            Direction::Down => {
                let to = if row < grid.len() - 1 {
                    row + 1
                } else {
                    0
                };
                let line = &grid[to];
                if col < line.len() {
                    line[col]
                } else {
                    line[line.len() - 1]
                }
            },
            Direction::Left => {
                let line = &grid[row];
                if col > 0 {
                    line[col - 1]
                } else {
                    line[line.len() - 1]
                }
            },
            Direction::Right => {
                let line = &grid[row];
                if col < line.len() - 1 {
                    line[col + 1]
                } else {
                    line[0]
                }
            },
        },
    }
}

/// The view of an optional pair of positions.
pub open spec fn pair_view(at: Option<(usize, usize)>) -> Option<(int, int)> {
    match at {
        Some((row, col)) => Some((row as int, col as int)),
        None => None,
    }
}

/// The card to select after an arrow key. `places` holds, for each visible
/// card, its `y` and its `x`; `selected` is the number of the card selected
/// before, if any. The result is the number of a visible card.
pub fn navigate(places: &Vec<(i32, i32)>, selected: Option<usize>, direction: Direction) -> (card:
    Option<usize>)
    ensures
        card == navigated(places@, selected, direction),
        card.is_some() == (places.len() > 0),
        card matches Some(c) ==> c < places.len(),
{
    if places.len() == 0 {
        return None;
    }
    let order = order_cards(places);
    let grid = group_rows(&order, places);
    let at = match selected {
        Some(card) => locate(&grid, card),
        None => None,
    };
    proof {
        assert forall|r: int| 0 <= r < grid.len() implies (#[trigger] grid@[r]).len() > 0 by {
            assert(rows(grid@)[r] == grid@[r]@);
        }
    }
    let card = step(&grid, at, direction);
    proof {
        lemma_target_on_grid(rows(grid@), pair_view(at), direction, places.len() as int);
    }
    Some(card)
}

/// An arrow key leads to a card of the grid.
pub proof fn lemma_target_on_grid(
    grid: Seq<Seq<usize>>,
    at: Option<(int, int)>,
    direction: Direction,
    n: int,
)
    requires
        grid.len() > 0,
        is_grid(grid, n),
        at matches Some((row, col)) ==> 0 <= row < grid.len() && 0 <= col < grid[row].len(),
    ensures
        target(grid, at, direction) < n,
{
    match at {
        None => {
            assert(grid[0].len() > 0);
            assert(grid[0][0] < n);
        },
        Some((row, col)) => {
            let up = if row > 0 {
                row - 1
            } else {
                grid.len() - 1
            };
            let down = if row < grid.len() - 1 {
                row + 1
            } else {
                0
            };
            assert(grid[up].len() > 0 && within(grid[up], n));
            assert(grid[down].len() > 0 && within(grid[down], n));
            assert(grid[row].len() > 0 && within(grid[row], n));
        },
    }
}

} // verus!
