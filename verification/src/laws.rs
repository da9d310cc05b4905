//! Laws of the game: statements about every board, every square and every
//! colour, each proved from the definitions in [`crate::rules`],
//! [`crate::count`] and [`crate::text`].

use crate::cell::Cell;
use crate::count::{count, count_in_row, lemma_count_with_disc, lemma_total, with_disc};
use crate::point::Point;
use crate::rules::{
    after_move, brackets, captured, disc, disc_after, initial_disc, initial_grid, is_direction,
    lemma_square_index, lies_at, on_grid, playable, putable, putable_on, putable_squares,
    rectangular, rival_at, squares, turned, turned_along, Grid,
};
use crate::text::{lemma_parse_render, no_empty_row, parse, render};
use vstd::prelude::*;

verus! {

/// Two rows of one length that hold `c` in the same places hold it equally often.
proof fn lemma_row_same_places(a: Seq<Cell>, b: Seq<Cell>, c: Cell)
    requires
        a.len() == b.len(),
        forall|k: int| 0 <= k < a.len() ==> (#[trigger] a[k] == c) == (b[k] == c),
    ensures
        count_in_row(a, c) == count_in_row(b, c),
    decreases a.len(),
{
    if a.len() > 0 {
        assert(a[a.len() - 1] == c <==> b[a.len() - 1] == c);
        lemma_row_same_places(a.drop_last(), b.drop_last(), c);
    }
}

/// Two grids of one shape that hold `c` on the same squares hold it equally often.
pub proof fn lemma_same_places(g: Grid, h: Grid, c: Cell)
    requires
        g.len() == h.len(),
        forall|r: int| 0 <= r < g.len() ==> (#[trigger] g[r]).len() == h[r].len(),
        forall|r: int, k: int|
            0 <= r < g.len() && 0 <= k < g[r].len() ==> (#[trigger] g[r][k] == c) == (h[r][k]
                == c),
    ensures
        count(g, c) == count(h, c),
    decreases g.len(),
{
    if g.len() > 0 {
        let r = g.len() - 1;
        assert(g[r].len() == h[r].len());
        assert forall|k: int| 0 <= k < g[r].len() implies (#[trigger] g[r][k] == c) == (h[r][k]
            == c) by {}
        lemma_row_same_places(g.last(), h.last(), c);
        lemma_same_places(g.drop_last(), h.drop_last(), c);
    }
}

/// The starting position holds exactly four discs, two of each colour, on the
/// four central squares: dark on the diagonal from upper left to lower right,
/// light on the other.
pub proof fn lemma_initial_position(width: int, height: int)
    requires
        2 <= width,
        2 <= height,
    ensures
        rectangular(initial_grid(width, height), width, height),
        count(initial_grid(width, height), Cell::Dark) == 2,
        count(initial_grid(width, height), Cell::Light) == 2,
        count(initial_grid(width, height), Cell::Empty) == width * height - 4,
        forall|x: int, y: int|
            1 <= x <= width && 1 <= y <= height ==> disc(initial_grid(width, height), x, y)
                == #[trigger] initial_disc(width, height, x, y),
{
    let g = initial_grid(width, height);
    let cx = width / 2;
    let cy = height / 2;
    let blank = Seq::new(height as nat, |r: int| Seq::new(width as nat, |k: int| Cell::Empty));
    let g1 = with_disc(blank, cx, cy, Cell::Dark);
    let g2 = with_disc(g1, cx + 1, cy + 1, Cell::Dark);
    let g3 = with_disc(g2, cx + 1, cy, Cell::Light);
    let g4 = with_disc(g3, cx, cy + 1, Cell::Light);
    assert(g4 =~= g) by {
        assert forall|r: int| 0 <= r < height implies g4[r] =~= g[r] by {}
    }
    lemma_blank(blank, Cell::Dark);
    lemma_blank(blank, Cell::Light);
    lemma_count_with_disc(blank, cx, cy, Cell::Dark, Cell::Dark);
    lemma_count_with_disc(blank, cx, cy, Cell::Dark, Cell::Light);
    lemma_count_with_disc(g1, cx + 1, cy + 1, Cell::Dark, Cell::Dark);
    lemma_count_with_disc(g1, cx + 1, cy + 1, Cell::Dark, Cell::Light);
    lemma_count_with_disc(g2, cx + 1, cy, Cell::Light, Cell::Dark);
    lemma_count_with_disc(g2, cx + 1, cy, Cell::Light, Cell::Light);
    lemma_count_with_disc(g3, cx, cy + 1, Cell::Light, Cell::Dark);
    lemma_count_with_disc(g3, cx, cy + 1, Cell::Light, Cell::Light);
    lemma_total(g, width, height);
}

/// A grid without a cell `c` counts none.
proof fn lemma_blank(g: Grid, c: Cell)
    requires
        forall|r: int, k: int| 0 <= r < g.len() && 0 <= k < g[r].len() ==> #[trigger] g[r][k] != c,
    ensures
        count(g, c) == 0,
    decreases g.len(),
{
    if g.len() > 0 {
        let last = g.last();
        assert forall|k: int| 0 <= k < last.len() implies #[trigger] last[k] != c by {
            assert(g[g.len() - 1][k] != c);
        }
        lemma_blank_row(last, c);
        lemma_blank(g.drop_last(), c);
    }
}

/// A row without a cell `c` counts none.
proof fn lemma_blank_row(row: Seq<Cell>, c: Cell)
    requires
        forall|k: int| 0 <= k < row.len() ==> #[trigger] row[k] != c,
    ensures
        count_in_row(row, c) == 0,
    decreases row.len(),
{
    if row.len() > 0 {
        assert(row[row.len() - 1] != c);
        lemma_blank_row(row.drop_last(), c);
    }
}

/// A disc that a move turns lies on the grid and is a rival disc: neither
/// empty nor of the colour that moves.
pub proof fn lemma_turned_is_rival(g: Grid, p: Point, c: Cell, x: int, y: int)
    requires
        turned(g, p, c, x, y),
    ensures
        on_grid(g, x, y),
        disc(g, x, y) != Cell::Empty,
        disc(g, x, y) != c,
        !(x == p.x && y == p.y),
{
    let d = choose|d: Point| is_direction(d) && #[trigger] turned_along(g, p, d, c, x, y);
    let n = captured(g, p, d, c);
    let i = choose|i: int| 1 <= i <= n && #[trigger] lies_at(p, d, i, x, y);
    assert(brackets(g, p, d, c, n));
    assert(rival_at(g, p, d, c, i));
}

/// A move fills exactly one empty square, and keeps the shape of the grid.
pub proof fn lemma_move_fills_one(g: Grid, p: Point, c: Cell)
    requires
        putable(g, p, c),
    ensures
        count(after_move(g, p, c), Cell::Empty) == count(g, Cell::Empty) - 1,
        after_move(g, p, c).len() == g.len(),
        forall|r: int| 0 <= r < g.len() ==> (#[trigger] after_move(g, p, c)[r]).len() == g[r].len(),
{
    let h = after_move(g, p, c);
    let back = with_disc(h, p.x as int, p.y as int, Cell::Empty);
    lemma_count_with_disc(h, p.x as int, p.y as int, Cell::Empty, Cell::Empty);
    assert forall|r: int, k: int| 0 <= r < g.len() && 0 <= k < g[r].len() implies (
    #[trigger] g[r][k] == Cell::Empty) == (back[r][k] == Cell::Empty) by {
        if !(k + 1 == p.x && r + 1 == p.y) {
            if turned(g, p, c, k + 1, r + 1) {
                lemma_turned_is_rival(g, p, c, k + 1, r + 1);
            }
            assert(back[r][k] == disc_after(g, p, c, k + 1, r + 1));
        }
    }
    lemma_same_places(g, back, Cell::Empty);
}

/// A move adds exactly one disc to those on the grid.
pub proof fn lemma_move_adds_one(g: Grid, p: Point, c: Cell)
    requires
        putable(g, p, c),
        exists|width: int, height: int| rectangular(g, width, height),
    ensures
        count(after_move(g, p, c), Cell::Dark) + count(after_move(g, p, c), Cell::Light) == count(
            g,
            Cell::Dark,
        ) + count(g, Cell::Light) + 1,
{
    let (width, height) = choose|width: int, height: int| rectangular(g, width, height);
    let h = after_move(g, p, c);
    lemma_move_fills_one(g, p, c);
    assert(rectangular(h, width, height)) by {
        assert forall|r: int| 0 <= r < h.len() implies (#[trigger] h[r]).len() == width by {
            assert(after_move(g, p, c)[r].len() == g[r].len());
        }
    }
    lemma_total(g, width, height);
    lemma_total(h, width, height);
}

/// `h` is the grid that some move makes of `g`.
pub open spec fn follows(g: Grid, h: Grid) -> bool {
    exists|p: Point, c: Cell| putable(g, p, c) && h == #[trigger] after_move(g, p, c)
}

/// Each grid of `play` but the first is what some move makes of the one before it.
pub open spec fn legal_play(play: Seq<Grid>) -> bool {
    forall|i: int| 0 <= i && i + 1 < play.len() ==> follows(#[trigger] play[i], play[i + 1])
}

/// A game ends: from any grid there are no more moves in a row than the grid
/// has empty squares, and so no more than it has squares.
pub proof fn lemma_play_ends(play: Seq<Grid>, width: int, height: int)
    requires
        play.len() >= 1,
        rectangular(play[0], width, height),
        legal_play(play),
    ensures
        play.len() - 1 <= count(play[0], Cell::Empty) <= width * height,
        count(play.last(), Cell::Empty) == count(play[0], Cell::Empty) - (play.len() - 1),
        rectangular(play.last(), width, height),
    decreases play.len(),
{
    lemma_total(play[0], width, height);
    if play.len() > 1 {
        let before = play.drop_last();
        assert(legal_play(before)) by {
            assert forall|i: int| 0 <= i && i + 1 < before.len() implies follows(
                #[trigger] before[i],
                before[i + 1],
            ) by {
                assert(follows(play[i], play[i + 1]));
            }
        }
        lemma_play_ends(before, width, height);
        let g = play[play.len() - 2];
        let h = play[play.len() - 1];
        assert(g == before.last());
        assert(follows(g, h));
        let (p, c) = choose|p: Point, c: Cell| putable(g, p, c) && h == #[trigger] after_move(g, p, c);
        lemma_move_fills_one(g, p, c);
        assert(rectangular(h, width, height)) by {
            assert forall|r: int| 0 <= r < h.len() implies (#[trigger] h[r]).len() == width by {
                assert(after_move(g, p, c)[r].len() == g[r].len());
            }
        }
    }
}

/// On a grid without an empty square neither colour has a move.
pub proof fn lemma_full_grid_has_no_move(g: Grid, p: Point, c: Cell)
    requires
        count(g, Cell::Empty) == 0,
    ensures
        !putable(g, p, c),
{
    if putable(g, p, c) {
        lemma_count_with_disc(g, p.x as int, p.y as int, Cell::Dark, Cell::Empty);
    }
}

/// The list of moves is a function of the grid and the colour: two lists
/// made for one grid and one colour are the same list.
pub proof fn lemma_putable_list_repeatable(
    g: Grid,
    width: int,
    height: int,
    c: Cell,
    first: Seq<Point>,
    second: Seq<Point>,
)
    requires
        first == putable_squares(g, width, height, c),
        second == putable_squares(g, width, height, c),
    ensures
        first == second,
{
}

/// The list of moves holds the squares on which the colour may be put, and no
/// others.
pub proof fn lemma_putable_list_exact(g: Grid, width: int, height: int, c: Cell, p: Point)
    requires
        2 <= width < isize::MAX,
        2 <= height < isize::MAX,
        rectangular(g, width, height),
    ensures
        putable_squares(g, width, height, c).contains(p) <==> putable(g, p, c),
{
    let all = squares(width, height);
    let test = putable_on(g, c);
    let list = putable_squares(g, width, height, c);
    if list.contains(p) {
        let i = choose|i: int| 0 <= i < list.len() && list[i] == p;
        all.lemma_filter_pred(test, i);
    }
    if putable(g, p, c) {
        lemma_square_index(width, height, p.x as int, p.y as int);
        let k = (p.y - 1) * width + (p.x - 1);
        assert(all[k] == p);
        assert(test(all[k]));
        all.lemma_filter_contains(test, k);
    }
}

/// A board written as text and read again is the same board.
pub proof fn lemma_text_round_trip(g: Grid)
    requires
        playable(g),
    ensures
        parse(render(g)) == Some(g),
{
    assert(no_empty_row(g));
    lemma_parse_render(g);
}

} // verus!
