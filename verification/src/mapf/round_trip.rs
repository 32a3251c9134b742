//! Writing a map that was read gives back a text that reads as the same map.

use crate::deps::sparse::cell;
use crate::mapf::loader::{
    byte_len, closed_lines, faults_of, first_where_is_least, hits, hits_before, is_blank_line, is_map_char,
    is_space, layout, line_error, map_chars_take_one_byte, map_lines, mark, open_line, parse_map, plane,
    strays_of, strip_cr, utf8_width,
};
use crate::mapf::render::{glyph, map_text, row_text};
use vstd::prelude::*;

verus! {

/// Every character of `line` is one that a map is written in, and none is
/// the digit `0`.
pub open spec fn is_clean(line: Seq<char>) -> bool {
    forall|x: int| 0 <= x < line.len() ==> is_map_char(#[trigger] line[x]) && line[x] != '0'
}

proof fn lemma_glyph_of_mark(c: char)
    requires
        is_map_char(c),
        c != '0',
    ensures
        glyph(mark(0, c), mark(1, c), mark(2, c)) == c,
        !is_space(c),
        c != '\n',
        c != '\r',
        utf8_width(c) == 1,
{
}

proof fn lemma_cell_of_plane(kind: int, lines: Seq<Seq<char>>, width: nat, y: int, x: int)
    requires
        0 <= kind < 3,
        0 <= y < lines.len(),
        0 <= x < width,
        lines[y].len() == width,
    ensures
        cell(plane(kind, lines, width), y, x) == mark(kind, lines[y][x]),
{
    let line = lines[y];
    if !hits_before(kind, line, line.len() as int) {
        assert(!hits(kind, line[x]));
    }
}

proof fn lemma_row_text(lines: Seq<Seq<char>>, width: nat, y: int, upto: int)
    requires
        0 <= y < lines.len(),
        lines[y].len() == width,
        is_clean(lines[y]),
        0 <= upto <= width,
    ensures
        row_text(layout(lines, width), y, upto) == lines[y].take(upto),
    decreases upto,
{
    if upto > 0 {
        lemma_row_text(lines, width, y, upto - 1);
        lemma_cell_of_plane(0, lines, width, y, upto - 1);
        lemma_cell_of_plane(1, lines, width, y, upto - 1);
        lemma_cell_of_plane(2, lines, width, y, upto - 1);
        lemma_glyph_of_mark(lines[y][upto - 1]);
        assert(lines[y].take(upto) =~= lines[y].take(upto - 1).push(lines[y][upto - 1]));
    } else {
        assert(lines[y].take(0) =~= Seq::<char>::empty());
    }
}

proof fn lemma_append_to_open_line(text: Seq<char>, line: Seq<char>)
    requires
        forall|x: int| 0 <= x < line.len() ==> #[trigger] line[x] != '\n',
    ensures
        open_line(text + line) == open_line(text) + line,
        closed_lines(text + line) == closed_lines(text),
    decreases line.len(),
{
    if line.len() == 0 {
        assert(text + line =~= text);
        assert(open_line(text) + line =~= open_line(text));
    } else {
        let shorter = line.drop_last();
        lemma_append_to_open_line(text, shorter);
        assert((text + line).drop_last() =~= text + shorter);
        assert((text + line).last() == line.last());
        assert(open_line(text) + line =~= (open_line(text) + shorter).push(line.last()));
    }
}

proof fn lemma_written_lines_read_back(lines: Seq<Seq<char>>, width: nat, upto: int)
    requires
        0 <= upto <= lines.len(),
        width > 0,
        forall|y: int| 0 <= y < lines.len() ==> (#[trigger] lines[y]).len() == width && is_clean(lines[y]),
    ensures
        closed_lines(map_text(layout(lines, width), upto)) == lines.take(upto),
        open_line(map_text(layout(lines, width), upto)) == Seq::<char>::empty(),
    decreases upto,
{
    let map = layout(lines, width);
    if upto > 0 {
        lemma_written_lines_read_back(lines, width, upto - 1);
        let above = map_text(map, upto - 1);
        let line = lines[upto - 1];
        lemma_row_text(lines, width, upto - 1, width as int);
        assert(line.take(width as int) =~= line);
        assert(row_text(map, upto - 1, width as int) == line);
        assert forall|x: int| 0 <= x < line.len() implies #[trigger] line[x] != '\n' by {
            lemma_glyph_of_mark(line[x]);
        }
        lemma_append_to_open_line(above, line);
        let written = map_text(map, upto);
        assert(written =~= (above + line).push('\n'));
        assert(written.drop_last() =~= above + line);
        assert(open_line(above + line) =~= line);
        lemma_glyph_of_mark(line[width - 1]);
        lemma_glyph_of_mark(line[0]);
        assert(strip_cr(line) == line);
        assert(!is_blank_line(line));
        assert(lines.take(upto) =~= lines.take(upto - 1).push(line));
    } else {
        assert(lines.take(0) =~= Seq::<Seq<char>>::empty());
    }
}

proof fn lemma_lines_come_from_text(text: Seq<char>)
    ensures
        forall|x: int| 0 <= x < open_line(text).len() ==> text.contains(#[trigger] open_line(text)[x]),
        forall|y: int, x: int|
            0 <= y < closed_lines(text).len() && 0 <= x < closed_lines(text)[y].len() ==> text.contains(
                #[trigger] closed_lines(text)[y][x],
            ),
        forall|y: int| 0 <= y < closed_lines(text).len() ==> !is_blank_line(#[trigger] closed_lines(text)[y]),
    decreases text.len(),
{
    if text.len() > 0 {
        let init = text.drop_last();
        lemma_lines_come_from_text(init);
        assert forall|c: char| init.contains(c) implies text.contains(c) by {
            let i = choose|i: int| 0 <= i < init.len() && init[i] == c;
            assert(text[i] == c);
        }
        assert(text[text.len() - 1] == text.last());
        if text.last() == '\n' {
            let line = strip_cr(open_line(init));
            assert forall|x: int| 0 <= x < line.len() implies text.contains(#[trigger] line[x]) by {
                assert(line[x] == open_line(init)[x]);
                assert(init.contains(open_line(init)[x]));
            }
            let kept = closed_lines(text);
            assert forall|y: int, x: int| 0 <= y < kept.len() && 0 <= x < kept[y].len() implies text.contains(
                #[trigger] kept[y][x],
            ) by {
                if y < closed_lines(init).len() {
                    assert(kept[y] == closed_lines(init)[y]);
                    assert(init.contains(closed_lines(init)[y][x]));
                } else {
                    assert(kept[y] == line);
                    assert(text.contains(line[x]));
                }
            }
            assert forall|y: int| 0 <= y < kept.len() implies !is_blank_line(#[trigger] kept[y]) by {
                if y < closed_lines(init).len() {
                    assert(kept[y] == closed_lines(init)[y]);
                }
            }
        } else {
            let open = open_line(text);
            assert forall|x: int| 0 <= x < open.len() implies text.contains(#[trigger] open[x]) by {
                if x < open_line(init).len() {
                    assert(open[x] == open_line(init)[x]);
                    assert(init.contains(open_line(init)[x]));
                }
            }
            assert forall|y: int, x: int|
                0 <= y < closed_lines(text).len() && 0 <= x < closed_lines(text)[y].len() implies text.contains(
                #[trigger] closed_lines(text)[y][x],
            ) by {
                assert(init.contains(closed_lines(init)[y][x]));
            }
        }
    }
}

/// Reading a text as a map, writing the map and reading what was written
/// gives the map again, for every text that reads as a map and holds no
/// digit `0`. (A `0` stands for a cell without a unit, is written back as
/// `.`, and then no longer has its row stored.)
pub proof fn written_map_reads_back(text: Seq<char>)
    requires
        parse_map(text) is Ok,
        !text.contains('0'),
    ensures
        parse_map(map_text(parse_map(text).unwrap(), parse_map(text).unwrap().shape.0 as int)) == parse_map(text),
{
    let lines = map_lines(text);
    let width = byte_len(lines[0]);
    let map = layout(lines, width);
    first_where_is_least(faults_of(lines, width), lines.len() as int);
    lemma_lines_come_from_text(text);
    assert forall|y: int| 0 <= y < lines.len() implies (#[trigger] lines[y]).len() == width && is_clean(lines[y])
        && !is_blank_line(lines[y]) by {
        assert(!faults_of(lines, width)(y));
        assert(line_error(lines[y], width, y) is None);
        first_where_is_least(strays_of(lines[y]), lines[y].len() as int);
        assert forall|x: int| 0 <= x < lines[y].len() implies is_map_char(#[trigger] lines[y][x]) && lines[y][x]
            != '0' by {
            assert(!strays_of(lines[y])(x));
            if y < closed_lines(text).len() {
                assert(lines[y] == closed_lines(text)[y]);
                assert(text.contains(closed_lines(text)[y][x]));
            } else {
                assert(lines[y] == open_line(text));
                assert(text.contains(open_line(text)[x]));
            }
        }
        map_chars_take_one_byte(lines[y]);
        if y < closed_lines(text).len() {
            assert(lines[y] == closed_lines(text)[y]);
        }
    }
    assert(width > 0) by {
        assert(!is_blank_line(lines[0]));
    }
    lemma_written_lines_read_back(lines, width, lines.len() as int);
    let written = map_text(map, lines.len() as int);
    assert(lines.take(lines.len() as int) =~= lines);
    assert(map_lines(written) == lines) by {
        assert(is_blank_line(Seq::<char>::empty()));
    }
}

} // verus!
