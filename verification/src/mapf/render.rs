//! Writing a map and a position as text.

use crate::deps::sparse::{bit_count, cell, Rows};
use crate::deps::text::{decimal, digit_char, digit_of, push_char, push_decimal};
use crate::mapf::definition::DefinitionView;
use crate::mapf::environment::MAPFEnvironment;
use crate::mapf::state::{MAPFState, StateView};
use vstd::prelude::*;

verus! {

/// The letter of the goals of player `g`: `A` for player 1.
pub open spec fn goal_letter(g: u8) -> char {
    (g - 1 + 65) as char
}

/// How a cell of a map is written: an obstacle as `#`, else a starting
/// unit as the digit of its owner (`?` where it has none), else a goal as
/// the letter of its owner, else `.`.
pub open spec fn glyph(obstacle: u8, start: u8, goal: u8) -> char {
    if obstacle == 1 {
        '#'
    } else if start != 0 {
        if start < 10 {
            digit_char(start as int)
        } else {
            '?'
        }
    } else if goal != 0 {
        goal_letter(goal)
    } else {
        '.'
    }
}

/// The first `upto` cells of row `y` of the map, as text.
pub open spec fn row_text(map: DefinitionView, y: int, upto: int) -> Seq<char>
    decreases upto,
{
    if upto <= 0 {
        Seq::empty()
    } else {
        row_text(map, y, upto - 1).push(
            glyph(
                cell(map.obstacles, y, upto - 1),
                cell(map.starting_positions, y, upto - 1),
                cell(map.goals, y, upto - 1),
            ),
        )
    }
}

/// The first `upto` rows of the map as text, a line feed after each.
pub open spec fn map_text(map: DefinitionView, upto: int) -> Seq<char>
    decreases upto,
{
    if upto <= 0 {
        Seq::empty()
    } else {
        map_text(map, upto - 1) + row_text(map, upto - 1, map.shape.1 as int).push('\n')
    }
}

/// No goal has an owner beyond 191, the last whose letter is a byte.
pub open spec fn goals_have_letters(goals: Rows) -> bool {
    forall|r: int, c: int| #[trigger] cell(goals, r, c) <= 191
}

/// The letter of the goals of player `g`.
fn letter_of(g: u8) -> (c: char)
    requires
        1 <= g <= 191,
    ensures
        c == goal_letter(g),
{
    (g - 1 + 65) as char
}

/// The value at `(r, c)` of `grid`, `0` where nothing is stored.
fn read(grid: &crate::deps::sparse::SparseMatrix2D, r: usize, c: usize) -> (v: u8)
    ensures
        v == cell(grid@, r as int, c as int),
{
    match grid.get(r, c) {
        Some(v) => v,
        None => 0,
    }
}

impl MAPFEnvironment {
    /// The map as text, one line per row.
    pub fn to_string(&self) -> (text: String)
        requires
            goals_have_letters(self.definition.goals@),
        ensures
            text@ == map_text(self.definition@, self.definition.shape.0 as int),
    {
        let mut text = String::new();
        let height = self.definition.shape.0;
        let width = self.definition.shape.1;
        let ghost map = self.definition@;
        let mut y: usize = 0;
        while y < height
            invariant
                y <= height,
                map == self.definition@,
                width == map.shape.1,
                goals_have_letters(map.goals),
                text@ == map_text(map, y as int),
            decreases height - y,
        {
            let ghost above = text@;
            let mut x: usize = 0;
            while x < width
                invariant
                    x <= width,
                    map == self.definition@,
                    goals_have_letters(map.goals),
                    text@ == above + row_text(map, y as int, x as int),
                decreases width - x,
            {
                let mut ch = '.';
                if read(&self.definition.obstacles, y, x) == 1 {
                    ch = '#';
                } else {
                    let start = read(&self.definition.starting_positions, y, x);
                    if start != 0 {
                        ch = if start < 10 {
                            digit_of(start)
                        } else {
                            '?'
                        };
                    } else {
                        let goal = read(&self.definition.goals, y, x);
                        if goal != 0 {
                            assert(cell(map.goals, y as int, x as int) <= 191);
                            ch = letter_of(goal);
                        }
                    }
                }
                push_char(&mut text, ch);
                x = x + 1;
                assert(text@ =~= above + row_text(map, y as int, x as int));
            }
            push_char(&mut text, '\n');
            y = y + 1;
            assert(text@ =~= map_text(map, y as int));
        }
        text
    }
}

/// The letter of a goal of player `g`, a blank where there is no goal.
pub open spec fn goal_mark(g: u8) -> char {
    if g > 0 {
        goal_letter(g)
    } else {
        ' '
    }
}

/// `n` blanks.
pub open spec fn blanks(n: nat) -> Seq<char> {
    Seq::new(n, |i: int| ' ')
}

/// How a cell of a position is written, given what the map and the three
/// unit planes hold there.
///
/// An obstacle is `#`. A unit that has not moved is its owner's digit. A
/// unit with an arrival of another value on its cell is a pair of crossed
/// swords and the two values. Any other cell that holds more than one thing
/// shows the three planes and the goal letter. A cell that its unit has left
/// is `<-`, an arrival is its owner's digit and a puff, a goal its letter,
/// and an empty cell `.`.
pub open spec fn cell_text(obstacle: u8, s0: u8, s1: u8, s2: u8, g: u8) -> Seq<char> {
    if obstacle != 0 {
        seq!['#'] + blanks(4)
    } else if s0 > 0 && s0 == s1 && s2 == 0 {
        decimal(s0) + blanks(4)
    } else if s0 > 0 && s1 > 0 && s2 > 0 && s1 != s2 && s0 == s1 {
        seq!['\u{2694}'] + decimal(s1) + decimal(s2) + blanks(1)
    } else if bit_count(s0) + bit_count(s1) + bit_count(s2) + bit_count(g) > 1 {
        decimal(s0) + decimal(s1) + decimal(s2) + seq![goal_mark(g)] + blanks(1)
    } else if s0 != 0 {
        seq!['<', '-'] + blanks(3)
    } else if s1 != 0 {
        decimal(s1) + blanks(4)
    } else if s2 != 0 {
        decimal(s2) + seq!['\u{1f4a8}'] + blanks(2)
    } else if g != 0 {
        seq![goal_mark(g)] + blanks(4)
    } else {
        seq!['.'] + blanks(4)
    }
}

/// The first `upto` cells of row `y` of a position, as text.
pub open spec fn board_row_text(map: DefinitionView, state: StateView, y: int, upto: int) -> Seq<char>
    decreases upto,
{
    if upto <= 0 {
        Seq::empty()
    } else {
        board_row_text(map, state, y, upto - 1) + cell_text(
            cell(map.obstacles, y, upto - 1),
            cell(state.units_begin, y, upto - 1),
            cell(state.units_available, y, upto - 1),
            cell(state.units_moved, y, upto - 1),
            cell(map.goals, y, upto - 1),
        )
    }
}

/// The first `upto` rows of a position as text, a line feed after each.
pub open spec fn board_rows_text(map: DefinitionView, state: StateView, upto: int) -> Seq<char>
    decreases upto,
{
    if upto <= 0 {
        Seq::empty()
    } else {
        board_rows_text(map, state, upto - 1) + board_row_text(map, state, upto - 1, map.shape.1 as int).push(
            '\n',
        )
    }
}

/// A position as text: its rows, and an empty line after them.
pub open spec fn board_text(map: DefinitionView, state: StateView) -> Seq<char> {
    board_rows_text(map, state, map.shape.0 as int).push('\n')
}

/// The number of bits set in `x`.
fn ones(x: u8) -> (n: u8)
    ensures
        n == bit_count(x),
        n <= 8,
{
    assert((x & 1) <= 1 && ((x >> 1) & 1) <= 1 && ((x >> 2) & 1) <= 1 && ((x >> 3) & 1) <= 1 && ((x >> 4) & 1) <= 1
        && ((x >> 5) & 1) <= 1 && ((x >> 6) & 1) <= 1 && ((x >> 7) & 1) <= 1) by (bit_vector);
    (x & 1) + ((x >> 1) & 1) + ((x >> 2) & 1) + ((x >> 3) & 1) + ((x >> 4) & 1) + ((x >> 5) & 1) + ((x >> 6) & 1) + ((x
        >> 7) & 1)
}

/// Appends `n` blanks.
fn push_blanks(text: &mut String, n: u8)
    ensures
        final(text)@ == old(text)@ + blanks(n as nat),
{
    let mut i: u8 = 0;
    while i < n
        invariant
            i <= n,
            text@ == old(text)@ + blanks(i as nat),
        decreases n - i,
    {
        push_char(text, ' ');
        i = i + 1;
        assert(text@ =~= old(text)@ + blanks(i as nat));
    }
}

/// Appends the text of one cell of a position.
fn push_cell(text: &mut String, obstacle: u8, s0: u8, s1: u8, s2: u8, g: u8)
    requires
        g <= 191,
    ensures
        final(text)@ == old(text)@ + cell_text(obstacle, s0, s1, s2, g),
{
    let g_s = if g > 0 {
        letter_of(g)
    } else {
        ' '
    };
    let bit_count_sum = ones(s0) + ones(s1) + ones(s2) + ones(g);
    if obstacle != 0 {
        push_char(text, '#');
        push_blanks(text, 4);
        assert(text@ =~= old(text)@ + (seq!['#'] + blanks(4)));
    } else if s0 > 0 && s0 == s1 && s2 == 0 {
        push_decimal(text, s0);
        push_blanks(text, 4);
        assert(text@ =~= old(text)@ + (decimal(s0) + blanks(4)));
    } else if s0 > 0 && s1 > 0 && s2 > 0 && s1 != s2 && s0 == s1 {
        push_char(text, '\u{2694}');
        push_decimal(text, s1);
        push_decimal(text, s2);
        push_blanks(text, 1);
        assert(text@ =~= old(text)@ + (seq!['\u{2694}'] + decimal(s1) + decimal(s2) + blanks(1)));
    } else if bit_count_sum > 1 {
        push_decimal(text, s0);
        push_decimal(text, s1);
        push_decimal(text, s2);
        push_char(text, g_s);
        push_blanks(text, 1);
        assert(text@ =~= old(text)@ + (decimal(s0) + decimal(s1) + decimal(s2) + seq![goal_mark(g)] + blanks(1)));
    } else if s0 != 0 {
        push_char(text, '<');
        push_char(text, '-');
        push_blanks(text, 3);
        assert(text@ =~= old(text)@ + (seq!['<', '-'] + blanks(3)));
    } else if s1 != 0 {
        push_decimal(text, s1);
        push_blanks(text, 4);
        assert(text@ =~= old(text)@ + (decimal(s1) + blanks(4)));
    } else if s2 != 0 {
        push_decimal(text, s2);
        push_char(text, '\u{1f4a8}');
        push_blanks(text, 2);
        assert(text@ =~= old(text)@ + (decimal(s2) + seq!['\u{1f4a8}'] + blanks(2)));
    } else if g != 0 {
        push_char(text, g_s);
        push_blanks(text, 4);
        assert(text@ =~= old(text)@ + (seq![goal_mark(g)] + blanks(4)));
    } else {
        push_char(text, '.');
        push_blanks(text, 4);
        assert(text@ =~= old(text)@ + (seq!['.'] + blanks(4)));
    }
}

impl MAPFState {
    /// The position as text, one line per row and an empty line at the end.
    pub fn to_string(&self) -> (text: String)
        requires
            goals_have_letters(self.definition.goals@),
        ensures
            text@ == board_text(self.definition@, self@),
    {
        let mut text = String::new();
        let height = self.definition.shape.0;
        let width = self.definition.shape.1;
        let ghost map = self.definition@;
        let ghost state = self@;
        let mut y: usize = 0;
        while y < height
            invariant
                y <= height,
                map == self.definition@,
                state == self@,
                width == map.shape.1,
                goals_have_letters(map.goals),
                text@ == board_rows_text(map, state, y as int),
            decreases height - y,
        {
            let ghost above = text@;
            let mut x: usize = 0;
            while x < width
                invariant
                    x <= width,
                    map == self.definition@,
                    state == self@,
                    goals_have_letters(map.goals),
                    text@ == above + board_row_text(map, state, y as int, x as int),
                decreases width - x,
            {
                let obstacle = read(&self.definition.obstacles, y, x);
                let s0 = read(&self.units_begin, y, x);
                let s1 = read(&self.units_available, y, x);
                let s2 = read(&self.units_moved, y, x);
                let g = read(&self.definition.goals, y, x);
                assert(cell(map.goals, y as int, x as int) <= 191);
                push_cell(&mut text, obstacle, s0, s1, s2, g);
                x = x + 1;
                assert(text@ =~= above + board_row_text(map, state, y as int, x as int));
            }
            push_char(&mut text, '\n');
            y = y + 1;
            assert(text@ =~= board_rows_text(map, state, y as int));
        }
        push_char(&mut text, '\n');
        text
    }
}

} // verus!
