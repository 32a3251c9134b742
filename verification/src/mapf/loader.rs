//! Reading a map from text.
//!
//! A map is a rectangular block of lines of equal length. In it `.` is an
//! empty cell, `#` an obstacle, a digit the owner of the unit that starts
//! there, and a capital letter a goal of the player with that letter's
//! number (`A` is player 1). Lines of white space only are skipped.

use crate::deps::sparse::{cell, count_cells, held_by, rows_have_width, Rows, SparseMatrix2D};
use crate::mapf::definition::{DefinitionView, MAPFDefinition};
use crate::mapf::environment::MAPFEnvironment;
use crate::mapf::render::goals_have_letters;
use std::sync::Arc;
use vstd::prelude::*;

verus! {

/// Why a text is no map.
#[derive(Debug, Clone, Copy, PartialEq, Eq)]
pub enum MapParseError {
    /// The text holds no line with anything but white space.
    EmptyGrid,
    /// Line `line`, counted from 0 among the lines that are not blank, is in
    /// bytes not as long as the first.
    InconsistentWidth { line: usize },
    /// Line `line` holds at `column`, counted in characters from 0, the
    /// character `ch`, which stands for nothing.
    InvalidCharacter { ch: char, column: usize, line: usize },
}

/// White space, as Unicode defines it.
pub open spec fn is_space(c: char) -> bool {
    let code = c as u32;
    ||| 0x09 <= code <= 0x0d
    ||| code == 0x20
    ||| code == 0x85
    ||| code == 0xa0
    ||| code == 0x1680
    ||| 0x2000 <= code <= 0x200a
    ||| code == 0x2028
    ||| code == 0x2029
    ||| code == 0x202f
    ||| code == 0x205f
    ||| code == 0x3000
}

/// A line of white space only, the empty line included.
pub open spec fn is_blank_line(line: Seq<char>) -> bool {
    forall|i: int| 0 <= i < line.len() ==> is_space(#[trigger] line[i])
}

/// The number of bytes that `c` takes in UTF-8.
pub open spec fn utf8_width(c: char) -> nat {
    let code = c as u32;
    if code < 0x80 {
        1
    } else if code < 0x800 {
        2
    } else if code < 0x10000 {
        3
    } else {
        4
    }
}

/// The length of `line` in bytes of UTF-8.
pub open spec fn byte_len(line: Seq<char>) -> nat
    decreases line.len(),
{
    if line.len() == 0 {
        0
    } else {
        byte_len(line.drop_last()) + utf8_width(line.last())
    }
}

/// The part of `text` after its last line feed: the line that is still
/// open at the end of `text`.
pub open spec fn open_line(text: Seq<char>) -> Seq<char>
    decreases text.len(),
{
    if text.len() == 0 {
        Seq::empty()
    } else if text.last() == '\n' {
        Seq::empty()
    } else {
        open_line(text.drop_last()).push(text.last())
    }
}

/// `line` without the carriage return that it may end in.
pub open spec fn strip_cr(line: Seq<char>) -> Seq<char> {
    if line.len() > 0 && line.last() == '\r' {
        line.drop_last()
    } else {
        line
    }
}

/// `lines` and then `line`, unless `line` is blank.
pub open spec fn keep(lines: Seq<Seq<char>>, line: Seq<char>) -> Seq<Seq<char>> {
    if is_blank_line(line) {
        lines
    } else {
        lines.push(line)
    }
}

/// The lines of `text` that a line feed ends and that are not blank, each
/// without the carriage return before its line feed.
pub open spec fn closed_lines(text: Seq<char>) -> Seq<Seq<char>>
    decreases text.len(),
{
    if text.len() == 0 {
        Seq::empty()
    } else if text.last() == '\n' {
        keep(closed_lines(text.drop_last()), strip_cr(open_line(text.drop_last())))
    } else {
        closed_lines(text.drop_last())
    }
}

/// The lines of `text` that count: split at line feeds, a carriage return
/// before a line feed dropped, blank lines skipped. A last line needs no
/// line feed.
pub open spec fn map_lines(text: Seq<char>) -> Seq<Seq<char>> {
    keep(closed_lines(text), open_line(text))
}

/// The characters that a map is written in.
pub open spec fn is_map_char(c: char) -> bool {
    c == '.' || c == '#' || ('0' <= c <= '9') || ('A' <= c <= 'Z')
}

/// What `c` puts on plane `kind`: `0` is the plane of obstacles, `1` that of
/// starting units, `2` that of goals.
pub open spec fn mark(kind: int, c: char) -> u8 {
    if kind == 0 {
        if c == '#' {
            1
        } else {
            0
        }
    } else if kind == 1 {
        if '0' <= c <= '9' {
            (c as u32 - '0' as u32) as u8
        } else {
            0
        }
    } else {
        if 'A' <= c <= 'Z' {
            (c as u32 - 'A' as u32 + 1) as u8
        } else {
            0
        }
    }
}

/// Whether `c` belongs to plane `kind`, and so has the row allocated.
pub open spec fn hits(kind: int, c: char) -> bool {
    if kind == 0 {
        c == '#'
    } else if kind == 1 {
        '0' <= c <= '9'
    } else {
        'A' <= c <= 'Z'
    }
}

/// Whether one of the first `upto` characters of `line` belongs to plane
/// `kind`.
pub open spec fn hits_before(kind: int, line: Seq<char>, upto: int) -> bool {
    exists|x: int| 0 <= x < upto && x < line.len() && hits(kind, #[trigger] line[x])
}

/// The row that `line` gives on plane `kind`: absent unless a character of
/// the line belongs to the plane.
pub open spec fn plane_row(kind: int, line: Seq<char>, width: nat) -> Option<Seq<u8>> {
    if hits_before(kind, line, line.len() as int) {
        Some(
            Seq::new(
                width,
                |x: int|
                    if x < line.len() {
                        mark(kind, line[x])
                    } else {
                        0u8
                    },
            ),
        )
    } else {
        None
    }
}

/// Plane `kind` of the map that `lines` describe.
pub open spec fn plane(kind: int, lines: Seq<Seq<char>>, width: nat) -> Rows {
    Seq::new(lines.len(), |r: int| plane_row(kind, lines[r], width))
}

/// The least index below `n` at which `pred` holds, if there is one.
pub open spec fn first_where(pred: spec_fn(int) -> bool, n: int) -> Option<int>
    decreases n,
{
    if n <= 0 {
        None
    } else {
        match first_where(pred, n - 1) {
            Some(i) => Some(i),
            None => if pred(n - 1) {
                Some(n - 1)
            } else {
                None
            },
        }
    }
}

/// Selects the positions of `line` that hold no map character.
pub open spec fn strays_of(line: Seq<char>) -> spec_fn(int) -> bool {
    |x: int| !is_map_char(line[x])
}

/// What is wrong with line `y`, if anything: first its width, then its
/// first character that stands for nothing.
pub open spec fn line_error(line: Seq<char>, width: nat, y: int) -> Option<MapParseError> {
    if byte_len(line) != width {
        Some(MapParseError::InconsistentWidth { line: y as usize })
    } else {
        match first_where(strays_of(line), line.len() as int) {
            Some(x) => Some(MapParseError::InvalidCharacter { ch: line[x], column: x as usize, line: y as usize }),
            None => None,
        }
    }
}

/// Selects the lines with something wrong.
pub open spec fn faults_of(lines: Seq<Seq<char>>, width: nat) -> spec_fn(int) -> bool {
    |y: int| line_error(lines[y], width, y) is Some
}

/// The map that `lines` describe, where nothing is wrong with them.
pub open spec fn layout(lines: Seq<Seq<char>>, width: nat) -> DefinitionView {
    let goals = plane(2, lines, width);
    DefinitionView {
        shape: (lines.len(), width),
        starting_positions: plane(1, lines, width),
        obstacles: plane(0, lines, width),
        goals,
        goals_num: seq![0u64, count_cells(goals, held_by(1)) as u64, count_cells(goals, held_by(2)) as u64],
    }
}

/// The map that the lines describe, or the first thing wrong: no line at
/// all, else the fault of the first line that has one. The width is that of
/// the first line.
pub open spec fn parse_lines(lines: Seq<Seq<char>>) -> Result<DefinitionView, MapParseError> {
    if lines.len() == 0 {
        Err(MapParseError::EmptyGrid)
    } else {
        let width = byte_len(lines[0]);
        match first_where(faults_of(lines, width), lines.len() as int) {
            Some(y) => Err(line_error(lines[y], width, y).unwrap()),
            None => Ok(layout(lines, width)),
        }
    }
}

/// The map that `text` describes, or why it describes none.
pub open spec fn parse_map(text: Seq<char>) -> Result<DefinitionView, MapParseError> {
    parse_lines(map_lines(text))
}

/// The total number of characters in `lines`.
pub open spec fn total_len(lines: Seq<Seq<char>>) -> nat
    decreases lines.len(),
{
    if lines.len() == 0 {
        0
    } else {
        total_len(lines.drop_last()) + lines.last().len()
    }
}

/// The character sequences that `lines` hold.
pub open spec fn lines_of(lines: Seq<Vec<char>>) -> Seq<Seq<char>> {
    lines.map_values(|line: Vec<char>| line@)
}

/// The rows that `data` holds.
pub open spec fn rows_of(data: Seq<Option<Vec<u8>>>) -> Rows {
    Seq::new(
        data.len(),
        |r: int|
            match data[r] {
                Some(row) => Some(row@),
                None => None,
            },
    )
}

/// Once found, the first index stays the first however far one looks.
pub proof fn first_where_is_stable(pred: spec_fn(int) -> bool, n: int, m: int)
    requires
        n <= m,
        first_where(pred, n) is Some,
    ensures
        first_where(pred, m) == first_where(pred, n),
    decreases m - n,
{
    if n < m {
        first_where_is_stable(pred, n, m - 1);
    }
}

/// The first index is one at which the predicate holds, and none before it
/// is; where there is none, the predicate holds nowhere below `n`.
pub proof fn first_where_is_least(pred: spec_fn(int) -> bool, n: int)
    ensures
        match first_where(pred, n) {
            Some(i) => 0 <= i < n && pred(i) && forall|j: int| 0 <= j < i ==> !(#[trigger] pred(j)),
            None => forall|j: int| 0 <= j < n ==> !(#[trigger] pred(j)),
        },
    decreases n,
{
    if n > 0 {
        first_where_is_least(pred, n - 1);
    }
}

/// Whether `c` is white space.
fn is_whitespace(c: char) -> (b: bool)
    ensures
        b == is_space(c),
{
    let code = c as u32;
    (0x09 <= code && code <= 0x0d) || code == 0x20 || code == 0x85 || code == 0xa0 || code == 0x1680 || (0x2000
        <= code && code <= 0x200a) || code == 0x2028 || code == 0x2029 || code == 0x202f || code == 0x205f || code
        == 0x3000
}

/// Whether `line` is white space only.
fn is_blank(line: &Vec<char>) -> (b: bool)
    ensures
        b == is_blank_line(line@),
{
    let mut i: usize = 0;
    while i < line.len()
        invariant
            i <= line@.len(),
            forall|k: int| 0 <= k < i ==> is_space(#[trigger] line@[k]),
        decreases line@.len() - i,
    {
        if !is_whitespace(line[i]) {
            return false;
        }
        i = i + 1;
    }
    true
}

/// The length of `line` in bytes of UTF-8.
fn byte_count(line: &Vec<char>) -> (bytes: u128)
    ensures
        bytes == byte_len(line@),
        line@.len() <= bytes,
{
    let mut bytes: u128 = 0;
    let mut i: usize = 0;
    while i < line.len()
        invariant
            i <= line@.len(),
            bytes == byte_len(line@.take(i as int)),
            i <= bytes <= 4 * i,
        decreases line@.len() - i,
    {
        assert(line@.take(i + 1).drop_last() =~= line@.take(i as int));
        let code = line[i] as u32;
        let width: u128 = if code < 0x80 {
            1
        } else if code < 0x800 {
            2
        } else if code < 0x10000 {
            3
        } else {
            4
        };
        bytes = bytes + width;
        i = i + 1;
    }
    assert(line@.take(line@.len() as int) =~= line@);
    bytes
}

/// The text as a vector of its characters.
fn chars_of(text: &str) -> (chars: Vec<char>)
    ensures
        chars@ == text@,
{
    let mut chars: Vec<char> = Vec::new();
    for c in it: text.chars()
        invariant
            chars@ == it.seq().take(it.index()),
            it.seq() == text@,
    {
        chars.push(c);
    }
    chars
}

/// The lines of `chars` that count.
fn split_lines(chars: &Vec<char>) -> (lines: Vec<Vec<char>>)
    ensures
        lines_of(lines@) == map_lines(chars@),
        total_len(lines_of(lines@)) <= chars@.len() <= usize::MAX,
{
    let mut lines: Vec<Vec<char>> = Vec::new();
    let mut current: Vec<char> = Vec::new();
    let n = chars.len();
    let mut k: usize = 0;
    assert(lines_of(lines@) =~= closed_lines(chars@.take(0)));
    while k < n
        invariant
            k <= n,
            n == chars@.len(),
            lines_of(lines@) == closed_lines(chars@.take(k as int)),
            current@ == open_line(chars@.take(k as int)),
            total_len(lines_of(lines@)) + current@.len() <= k,
        decreases n - k,
    {
        let c = chars[k];
        assert(chars@.take(k + 1).drop_last() =~= chars@.take(k as int));
        assert(chars@.take(k + 1).last() == c);
        if c == '\n' {
            let len = current.len();
            if len > 0 && current[len - 1] == '\r' {
                current.pop();
            }
            assert(current@ =~= strip_cr(open_line(chars@.take(k as int))));
            if !is_blank(&current) {
                let ghost before = lines_of(lines@);
                lines.push(current);
                assert(lines_of(lines@) =~= before.push(current@));
                assert(lines_of(lines@).drop_last() =~= before);
            }
            current = Vec::new();
        } else {
            current.push(c);
        }
        k = k + 1;
    }
    assert(chars@.take(n as int) =~= chars@);
    if !is_blank(&current) {
        let ghost before = lines_of(lines@);
        lines.push(current);
        assert(lines_of(lines@) =~= before.push(current@));
        assert(lines_of(lines@).drop_last() =~= before);
    }
    lines
}

/// A line of map characters takes one byte for each.
pub proof fn map_chars_take_one_byte(line: Seq<char>)
    requires
        forall|x: int| 0 <= x < line.len() ==> is_map_char(#[trigger] line[x]),
    ensures
        byte_len(line) == line.len(),
    decreases line.len(),
{
    if line.len() > 0 {
        map_chars_take_one_byte(line.drop_last());
    }
}

proof fn lemma_total_len_of_block(lines: Seq<Seq<char>>, width: nat)
    requires
        forall|r: int| 0 <= r < lines.len() ==> (#[trigger] lines[r]).len() == width,
    ensures
        total_len(lines) == lines.len() * width,
    decreases lines.len(),
{
    if lines.len() > 0 {
        lemma_total_len_of_block(lines.drop_last(), width);
        assert((lines.len() - 1) * width + width == lines.len() * width) by (nonlinear_arith);
    }
}

/// What `c` puts on plane `kind`.
fn mark_of(kind: u8, c: char) -> (v: u8)
    requires
        kind < 3,
    ensures
        v == mark(kind as int, c),
{
    if kind == 0 {
        if c == '#' {
            1
        } else {
            0
        }
    } else if kind == 1 {
        if '0' <= c && c <= '9' {
            (c as u32 - '0' as u32) as u8
        } else {
            0
        }
    } else {
        if 'A' <= c && c <= 'Z' {
            (c as u32 - 'A' as u32 + 1) as u8
        } else {
            0
        }
    }
}

/// Whether `c` belongs to plane `kind`.
fn hits_plane(kind: u8, c: char) -> (b: bool)
    requires
        kind < 3,
    ensures
        b == hits(kind as int, c),
{
    if kind == 0 {
        c == '#'
    } else if kind == 1 {
        '0' <= c && c <= '9'
    } else {
        'A' <= c && c <= 'Z'
    }
}

/// Whether `c` is a character that a map is written in.
fn is_known(c: char) -> (b: bool)
    ensures
        b == is_map_char(c),
{
    c == '.' || c == '#' || ('0' <= c && c <= '9') || ('A' <= c && c <= 'Z')
}

/// The row that `line` gives on plane `kind`.
fn row_on_plane(kind: u8, line: &Vec<char>) -> (row: Option<Vec<u8>>)
    requires
        kind < 3,
    ensures
        (match row {
            Some(cells) => Some(cells@),
            None => None,
        }) == plane_row(kind as int, line@, line@.len()),
{
    let n = line.len();
    let mut cells: Vec<u8> = Vec::new();
    let mut found = false;
    let mut x: usize = 0;
    while x < n
        invariant
            x <= n,
            n == line@.len(),
            kind < 3,
            cells@.len() == x,
            forall|i: int| 0 <= i < x ==> #[trigger] cells@[i] == mark(kind as int, line@[i]),
            found == hits_before(kind as int, line@, x as int),
        decreases n - x,
    {
        let c = line[x];
        cells.push(mark_of(kind, c));
        if hits_plane(kind, c) {
            found = true;
        }
        x = x + 1;
    }
    if found {
        assert(cells@ =~= plane_row(kind as int, line@, line@.len()).unwrap());
        Some(cells)
    } else {
        None
    }
}

/// The map that `lines` describe, or the first thing wrong with them.
fn build(lines: &Vec<Vec<char>>) -> (result: Result<MAPFDefinition, MapParseError>)
    requires
        total_len(lines_of(lines@)) <= usize::MAX,
    ensures
        match result {
            Ok(definition) => parse_lines(lines_of(lines@)) == Ok::<DefinitionView, MapParseError>(definition@)
                && definition.wf() && definition.counts_goals() && goals_have_letters(definition.goals@),
            Err(e) => parse_lines(lines_of(lines@)) == Err::<DefinitionView, MapParseError>(e),
        },
{
    let ghost all = lines_of(lines@);
    let height = lines.len();
    if height == 0 {
        return Err(MapParseError::EmptyGrid);
    }
    let first_bytes = byte_count(&lines[0]);
    let ghost width = first_bytes as nat;
    assert(all[0] == lines@[0]@);
    let mut obstacles_data: Vec<Option<Vec<u8>>> = Vec::new();
    let mut starting_data: Vec<Option<Vec<u8>>> = Vec::new();
    let mut goals_data: Vec<Option<Vec<u8>>> = Vec::new();
    let mut y: usize = 0;
    while y < height
        invariant
            y <= height,
            height == lines@.len(),
            all == lines_of(lines@),
            width == first_bytes,
            width == byte_len(all[0]),
            first_where(faults_of(all, width), y as int) is None,
            forall|r: int| 0 <= r < y ==> (#[trigger] all[r]).len() == width,
            obstacles_data@.len() == y,
            starting_data@.len() == y,
            goals_data@.len() == y,
            forall|r: int| 0 <= r < y ==> #[trigger] rows_of(obstacles_data@)[r] == plane_row(0, all[r], width),
            forall|r: int| 0 <= r < y ==> #[trigger] rows_of(starting_data@)[r] == plane_row(1, all[r], width),
            forall|r: int| 0 <= r < y ==> #[trigger] rows_of(goals_data@)[r] == plane_row(2, all[r], width),
        decreases height - y,
    {
        let line = &lines[y];
        assert(all[y as int] == line@);
        let bytes = byte_count(line);
        if bytes != first_bytes {
            proof {
                assert(faults_of(all, width)(y as int));
                first_where_is_stable(faults_of(all, width), y + 1, height as int);
            }
            return Err(MapParseError::InconsistentWidth { line: y });
        }
        let n = line.len();
        let mut x: usize = 0;
        while x < n
            invariant
                x <= n,
                n == line@.len(),
                y < height,
                height == all.len(),
                all == lines_of(lines@),
                width == byte_len(all[0]),
                all[y as int] == line@,
                byte_len(line@) == width,
                first_where(faults_of(all, width), y as int) is None,
                first_where(strays_of(line@), x as int) is None,
            decreases n - x,
        {
            let ch = line[x];
            if !is_known(ch) {
                proof {
                    assert(strays_of(line@)(x as int));
                    first_where_is_stable(strays_of(line@), x + 1, n as int);
                    assert(faults_of(all, width)(y as int));
                    first_where_is_stable(faults_of(all, width), y + 1, height as int);
                }
                return Err(MapParseError::InvalidCharacter { ch, column: x, line: y });
            }
            x = x + 1;
        }
        proof {
            first_where_is_least(strays_of(line@), n as int);
            assert forall|i: int| 0 <= i < line@.len() implies is_map_char(#[trigger] line@[i]) by {
                assert(!strays_of(line@)(i));
            }
            map_chars_take_one_byte(line@);
            assert(!faults_of(all, width)(y as int));
        }
        let ghost above_obstacles = rows_of(obstacles_data@);
        let ghost above_starting = rows_of(starting_data@);
        let ghost above_goals = rows_of(goals_data@);
        obstacles_data.push(row_on_plane(0, line));
        starting_data.push(row_on_plane(1, line));
        goals_data.push(row_on_plane(2, line));
        proof {
            assert forall|r: int| 0 <= r < y + 1 implies #[trigger] rows_of(obstacles_data@)[r] == plane_row(
                0,
                all[r],
                width,
            ) by {
                if r < y {
                    assert(rows_of(obstacles_data@)[r] == above_obstacles[r]);
                }
            }
            assert forall|r: int| 0 <= r < y + 1 implies #[trigger] rows_of(starting_data@)[r] == plane_row(
                1,
                all[r],
                width,
            ) by {
                if r < y {
                    assert(rows_of(starting_data@)[r] == above_starting[r]);
                }
            }
            assert forall|r: int| 0 <= r < y + 1 implies #[trigger] rows_of(goals_data@)[r] == plane_row(
                2,
                all[r],
                width,
            ) by {
                if r < y {
                    assert(rows_of(goals_data@)[r] == above_goals[r]);
                }
            }
        }
        y = y + 1;
    }
    let columns = lines[0].len();
    proof {
        assert(all[0].len() == width);
        lemma_total_len_of_block(all, width);
        assert(height * columns <= u64::MAX);
    }
    let shape = (height, columns);
    let starting_positions = SparseMatrix2D { data: starting_data, shape };
    let obstacles = SparseMatrix2D { data: obstacles_data, shape };
    let goals = SparseMatrix2D { data: goals_data, shape };
    proof {
        assert forall|r: int| 0 <= r < height implies #[trigger] starting_positions@[r] == plane(1, all, width)[r] by {
            assert(rows_of(starting_data@)[r] == plane_row(1, all[r], width));
        }
        assert forall|r: int| 0 <= r < height implies #[trigger] obstacles@[r] == plane(0, all, width)[r] by {
            assert(rows_of(obstacles_data@)[r] == plane_row(0, all[r], width));
        }
        assert forall|r: int| 0 <= r < height implies #[trigger] goals@[r] == plane(2, all, width)[r] by {
            assert(rows_of(goals_data@)[r] == plane_row(2, all[r], width));
        }
        assert(starting_positions@ =~= plane(1, all, width));
        assert(obstacles@ =~= plane(0, all, width));
        assert(goals@ =~= plane(2, all, width));
        assert(rows_have_width(starting_positions@, width));
        assert(rows_have_width(obstacles@, width));
        assert(rows_have_width(goals@, width));
    }
    let goals_of_first = goals.count_value(1);
    let goals_of_second = goals.count_value(2);
    let definition = MAPFDefinition {
        shape,
        starting_positions,
        obstacles,
        goals,
        goals_num: [0, goals_of_first, goals_of_second],
    };
    proof {
        assert forall|r: int, c: int| #[trigger] cell(plane(2, all, width), r, c) <= 191 by {
            if 0 <= r < all.len() && 0 <= c < all[r].len() {
                assert(mark(2, all[r][c]) <= 26);
            }
        }
        assert(definition@.goals_num =~= layout(all, width).goals_num);
        assert(definition@ == layout(all, width));
    }
    Ok(definition)
}

impl MAPFEnvironment {
    /// The game on the map that `content` describes, or why it describes
    /// none.
    pub fn new_from_text(content: &str) -> (result: Result<MAPFEnvironment, MapParseError>)
        ensures
            match result {
                Ok(environment) => parse_map(content@) == Ok::<DefinitionView, MapParseError>(
                    environment.definition@,
                ) && environment.definition.wf() && environment.definition.counts_goals() && goals_have_letters(
                    environment.definition.goals@,
                ),
                Err(e) => parse_map(content@) == Err::<DefinitionView, MapParseError>(e),
            },
    {
        let chars = chars_of(content);
        let lines = split_lines(&chars);
        match build(&lines) {
            Ok(definition) => Ok(MAPFEnvironment { definition: Arc::new(definition) }),
            Err(e) => Err(e),
        }
    }
}

} // verus!
