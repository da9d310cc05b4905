//! Boards as text, and text as boards.
//!
//! A grid is written row by row: the glyph of each cell, then a line break
//! after each row, and one more line break after the last row. Reading goes
//! the other way, and the two are shown to be inverse to each other.

use crate::cell::Cell;
use crate::rules::Grid;
use vstd::prelude::*;

verus! {

/// The glyphs of a row of cells.
pub open spec fn glyphs(row: Seq<Cell>) -> Seq<char> {
    row.map_values(|c: Cell| c.spec_glyph())
}

/// The rows of `g` as text: the glyphs of each row, each row followed by a line break.
pub open spec fn render_rows(g: Grid) -> Seq<char>
    decreases g.len(),
{
    if g.len() == 0 {
        Seq::empty()
    } else {
        render_rows(g.drop_last()) + glyphs(g.last()) + seq!['\n']
    }
}

/// The grid `g` as text: its rows, then an empty line.
pub open spec fn render(g: Grid) -> Seq<char> {
    render_rows(g) + seq!['\n']
}

/// Every row of `g` holds at least one cell.
pub open spec fn no_empty_row(g: Grid) -> bool {
    forall|r: int| 0 <= r < g.len() ==> (#[trigger] g[r]).len() > 0
}

/// What a reader holds after some text: the rows that are complete, the cells
/// of the row that it is in, and whether it has met the empty line that ends
/// the grid.
pub type Reading = (Grid, Seq<Cell>, bool);

/// What a reader that holds `state` holds after the character `ch`, or `None`
/// where `ch` cannot follow: nothing follows the empty line that ends the
/// grid, a line break ends the row or, in an empty row, the grid, and any
/// other character has to be a glyph.
pub open spec fn read_char(state: Reading, ch: char) -> Option<Reading> {
    let (rows, row, done) = state;
    if done {
        None
    } else if ch == '\n' {
        if row.len() == 0 {
            Some((rows, row, true))
        } else {
            Some((rows.push(row), Seq::empty(), false))
        }
    } else {
        match Cell::spec_from_glyph(ch) {
            Some(c) => Some((rows, row.push(c), false)),
            None => None,
        }
    }
}

/// What a reader holds after `text`, or `None` where `text` cannot be read.
pub open spec fn read(text: Seq<char>) -> Option<Reading>
    decreases text.len(),
{
    if text.len() == 0 {
        Some((Seq::empty(), Seq::empty(), false))
    } else {
        match read(text.drop_last()) {
            Some(state) => read_char(state, text.last()),
            None => None,
        }
    }
}

/// The grid that `text` spells, or `None` where it spells none: the text has
/// to be rows of glyphs, none of them empty, each ended by a line break, and
/// then one empty line.
pub open spec fn parse(text: Seq<char>) -> Option<Grid> {
    match read(text) {
        Some((rows, row, done)) => if done {
            Some(rows)
        } else {
            None
        },
        None => None,
    }
}

/// Text that cannot be read up to some place cannot be read at all.
pub proof fn lemma_read_prefix(text: Seq<char>, n: int)
    requires
        0 <= n <= text.len(),
        read(text.take(n)) is None,
    ensures
        read(text) is None,
    decreases text.len() - n,
{
    if n < text.len() {
        assert(text.take(n + 1).drop_last() =~= text.take(n));
        lemma_read_prefix(text, n + 1);
    } else {
        assert(text.take(n) =~= text);
    }
}

/// Reading one more character of a text.
pub proof fn lemma_read_next(text: Seq<char>, n: int)
    requires
        0 <= n < text.len(),
    ensures
        read(text.take(n + 1)) == match read(text.take(n)) {
            Some(state) => read_char(state, text[n]),
            None => None,
        },
{
    assert(text.take(n + 1).drop_last() =~= text.take(n));
}

/// After the rows of a grid and the glyphs of some further cells, a reader
/// holds exactly those rows and those cells.
pub proof fn lemma_read_rendered(g: Grid, partial: Seq<Cell>)
    requires
        no_empty_row(g),
    ensures
        read(render_rows(g) + glyphs(partial)) == Some((g, partial, false)),
    decreases g.len(), partial.len(),
{
    let text = render_rows(g) + glyphs(partial);
    if partial.len() > 0 {
        let c = partial.last();
        let before = partial.drop_last();
        lemma_read_rendered(g, before);
        assert(text.drop_last() =~= render_rows(g) + glyphs(before));
        assert(text.last() == c.spec_glyph());
        c.lemma_glyph_round_trip();
        assert(before.push(c) =~= partial);
    } else if g.len() > 0 {
        let above = g.drop_last();
        assert(no_empty_row(above));
        lemma_read_rendered(above, g.last());
        assert(text =~= render_rows(above) + glyphs(g.last()) + seq!['\n']);
        assert(text.drop_last() =~= render_rows(above) + glyphs(g.last()));
        assert(text.last() == '\n');
        assert(g.last().len() > 0);
        assert(above.push(g.last()) =~= g);
        assert(partial =~= Seq::<Cell>::empty());
    } else {
        assert(text =~= Seq::<char>::empty());
        assert(g =~= Seq::<Seq<Cell>>::empty());
        assert(partial =~= Seq::<Cell>::empty());
    }
}

/// Writing a grid and reading the text gives the grid back.
pub proof fn lemma_parse_render(g: Grid)
    requires
        no_empty_row(g),
    ensures
        parse(render(g)) == Some(g),
{
    let text = render(g);
    lemma_read_rendered(g, Seq::empty());
    assert(render_rows(g) + glyphs(Seq::<Cell>::empty()) =~= render_rows(g));
    assert(text.drop_last() =~= render_rows(g));
    assert(text.last() == '\n');
}

/// What a reader holds spells the text that it has read.
pub proof fn lemma_read_sound(text: Seq<char>)
    ensures
        read(text) matches Some((rows, row, done)) ==> {
            &&& no_empty_row(rows)
            &&& done ==> row.len() == 0
            &&& text == render_rows(rows) + glyphs(row) + if done {
                seq!['\n']
            } else {
                Seq::<char>::empty()
            }
        },
    decreases text.len(),
{
    if text.len() == 0 {
        assert(text =~= render_rows(Seq::<Seq<Cell>>::empty()) + glyphs(Seq::<Cell>::empty())
            + Seq::<char>::empty());
    } else {
        let before = text.drop_last();
        let ch = text.last();
        lemma_read_sound(before);
        assert(text =~= before.push(ch));
        if let Some((rows, row, done)) = read(before) {
            if let Some((rows2, row2, done2)) = read_char((rows, row, done), ch) {
                Cell::lemma_from_glyph_sound(ch);
                if ch == '\n' {
                    if row.len() == 0 {
                        assert(glyphs(row) =~= Seq::<char>::empty());
                        assert(text =~= render_rows(rows2) + glyphs(row2) + seq!['\n']);
                    } else {
                        assert(rows2.drop_last() =~= rows);
                        assert(rows2.last() == row);
                        assert(no_empty_row(rows2)) by {
                            assert forall|r: int| 0 <= r < rows2.len() implies (
                            #[trigger] rows2[r]).len() > 0 by {
                                if r < rows.len() {
                                    assert(rows2[r] == rows[r]);
                                }
                            }
                        }
                        assert(glyphs(row2) =~= Seq::<char>::empty());
                        assert(text =~= render_rows(rows2) + glyphs(row2) + Seq::<char>::empty());
                    }
                } else {
                    let c = Cell::spec_from_glyph(ch)->0;
                    assert(glyphs(row2) =~= glyphs(row).push(ch));
                    assert(text =~= render_rows(rows2) + glyphs(row2) + Seq::<char>::empty());
                }
            }
        }
    }
}

/// Text that spells a grid is that grid written out, and no row of the grid is empty.
pub proof fn lemma_parse_sound(text: Seq<char>)
    ensures
        parse(text) matches Some(g) ==> no_empty_row(g) && render(g) == text,
{
    lemma_read_sound(text);
    if let Some((rows, row, done)) = read(text) {
        if done {
            assert(glyphs(row) =~= Seq::<char>::empty());
            assert(text =~= render(rows));
        }
    }
}

/// Adding a cell to a row adds its glyph to the row's text.
pub proof fn lemma_glyphs_push(row: Seq<Cell>, c: Cell)
    ensures
        glyphs(row.push(c)) == glyphs(row).push(c.spec_glyph()),
{
    assert(glyphs(row.push(c)) =~= glyphs(row).push(c.spec_glyph()));
}

/// Adding a row to a grid adds the row's text and a line break to the grid's text.
pub proof fn lemma_render_rows_push(g: Grid, row: Seq<Cell>)
    ensures
        render_rows(g.push(row)) == render_rows(g) + glyphs(row) + seq!['\n'],
{
    assert(g.push(row).drop_last() =~= g);
}

} // verus!
