//! The rules of the game as mathematics.
//!
//! A position is a [`Grid`]: a sequence of rows, top to bottom, each a sequence
//! of cells, left to right. Squares are named by 1-based integer coordinates,
//! so the cell of square `(x, y)` is `g[y - 1][x - 1]`.

use crate::cell::Cell;
use crate::point::Point;
use vstd::prelude::*;

verus! {

/// The contents of a board: `g[r][k]` is the cell in row `r`, column `k`, both 0-based.
pub type Grid = Seq<Seq<Cell>>;

/// `g` has `height` rows of `width` cells each.
pub open spec fn rectangular(g: Grid, width: int, height: int) -> bool {
    &&& g.len() == height
    &&& forall|r: int| 0 <= r < g.len() ==> (#[trigger] g[r]).len() == width
}

/// `g` is a grid that a board can hold: rectangular, with at least two rows
/// and two columns, with every coordinate below `isize::MAX`, and with a
/// number of squares that fits `usize`.
pub open spec fn playable(g: Grid) -> bool {
    &&& 2 <= g.len() < isize::MAX
    &&& 2 <= g[0].len() < isize::MAX
    &&& g[0].len() * g.len() <= usize::MAX
    &&& rectangular(g, g[0].len() as int, g.len() as int)
}

/// The square `(x, y)` lies on the grid.
pub open spec fn on_grid(g: Grid, x: int, y: int) -> bool {
    1 <= y <= g.len() && 1 <= x <= g[y - 1].len()
}

/// The cell of square `(x, y)`.
pub open spec fn disc(g: Grid, x: int, y: int) -> Cell {
    g[y - 1][x - 1]
}

/// `d` is one of the eight steps to a neighbouring square.
pub open spec fn is_direction(d: Point) -> bool {
    &&& -1 <= d.x <= 1
    &&& -1 <= d.y <= 1
    &&& (d.x != 0 || d.y != 0)
}

/// The eight directions in the order in which a move looks along them: row by
/// row from upper left to lower right.
pub open spec fn direction(k: int) -> Point {
    if k == 0 {
        Point { x: (-1) as isize, y: (-1) as isize }
    } else if k == 1 {
        Point { x: 0, y: (-1) as isize }
    } else if k == 2 {
        Point { x: 1, y: (-1) as isize }
    } else if k == 3 {
        Point { x: (-1) as isize, y: 0 }
    } else if k == 4 {
        Point { x: 1, y: 0 }
    } else if k == 5 {
        Point { x: (-1) as isize, y: 1 }
    } else if k == 6 {
        Point { x: 0, y: 1 }
    } else {
        Point { x: 1, y: 1 }
    }
}

/// The place of a direction in the order of [`direction`].
pub open spec fn direction_index(d: Point) -> int {
    if d.y < 0 {
        d.x + 1
    } else if d.y == 0 {
        if d.x < 0 {
            3
        } else {
            4
        }
    } else {
        d.x + 6
    }
}

/// [`direction`] lists the directions, each of them once.
pub proof fn lemma_directions(d: Point, k: int)
    ensures
        0 <= k < 8 ==> is_direction(direction(k)) && direction_index(direction(k)) == k,
        is_direction(d) ==> 0 <= direction_index(d) < 8 && direction(direction_index(d)) == d,
{
}

/// The coordinate reached from `a` after `i` steps whose component along this
/// axis is `u`. For the components of a direction this is `a + i * u`
/// (see [`lemma_travel_is_linear`]).
pub open spec fn travel(a: int, u: int, i: int) -> int {
    if u > 0 {
        a + i
    } else if u < 0 {
        a - i
    } else {
        a
    }
}

/// For a direction component `u`, [`travel`] is the linear map `a + i * u`.
pub proof fn lemma_travel_is_linear(a: int, u: int, i: int)
    requires
        -1 <= u <= 1,
    ensures
        travel(a, u, i) == a + i * u,
{
    assert(u == 1 ==> i * u == i) by (nonlinear_arith);
    assert(u == -1 ==> i * u == -i) by (nonlinear_arith);
    assert(u == 0 ==> i * u == 0) by (nonlinear_arith);
}

/// The square `(x, y)` is the `i`-th one from `p` along `d`.
pub open spec fn lies_at(p: Point, d: Point, i: int, x: int, y: int) -> bool {
    x == travel(p.x as int, d.x as int, i) && y == travel(p.y as int, d.y as int, i)
}

/// The `i`-th square from `p` along `d` is on the grid and holds a disc of the
/// colour playing against `c`: one that is neither `c` nor empty.
pub open spec fn rival_at(g: Grid, p: Point, d: Point, c: Cell, i: int) -> bool {
    let x = travel(p.x as int, d.x as int, i);
    let y = travel(p.y as int, d.y as int, i);
    on_grid(g, x, y) && disc(g, x, y) != c && disc(g, x, y) != Cell::Empty
}

/// The `i`-th square from `p` along `d` is on the grid and holds `c`.
pub open spec fn own_at(g: Grid, p: Point, d: Point, c: Cell, i: int) -> bool {
    let x = travel(p.x as int, d.x as int, i);
    let y = travel(p.y as int, d.y as int, i);
    on_grid(g, x, y) && disc(g, x, y) == c
}

/// Going from `p` along `d`, the next `n >= 1` squares hold rival discs and the
/// square after them holds `c`: a disc of colour `c` at `p` brackets `n` discs.
pub open spec fn brackets(g: Grid, p: Point, d: Point, c: Cell, n: int) -> bool {
    &&& n >= 1
    &&& forall|i: int| 1 <= i <= n ==> #[trigger] rival_at(g, p, d, c, i)
    &&& own_at(g, p, d, c, n + 1)
}

/// A disc of colour `c` at `p` captures along `d`.
pub open spec fn captures(g: Grid, p: Point, d: Point, c: Cell) -> bool {
    exists|n: int| #[trigger] brackets(g, p, d, c, n)
}

/// The number of discs that a disc of colour `c` at `p` brackets along `d`,
/// where it captures along `d`.
pub open spec fn captured(g: Grid, p: Point, d: Point, c: Cell) -> int {
    choose|n: int| #[trigger] brackets(g, p, d, c, n)
}

/// Where a run of rival discs ends at a square that holds neither a rival
/// disc nor one of colour `c`, nothing is captured along the line.
pub proof fn lemma_run_broken(g: Grid, p: Point, d: Point, c: Cell, n: int)
    requires
        n >= 0,
        forall|i: int| 1 <= i <= n ==> #[trigger] rival_at(g, p, d, c, i),
        !rival_at(g, p, d, c, n + 1),
        !own_at(g, p, d, c, n + 1),
    ensures
        !captures(g, p, d, c),
{
    assert forall|m: int| !brackets(g, p, d, c, m) by {
        if brackets(g, p, d, c, m) {
            if m < n {
                assert(rival_at(g, p, d, c, m + 1));
            } else if m > n {
                assert(rival_at(g, p, d, c, n + 1));
            }
        }
    }
}

/// A disc brackets at most one number of discs along a direction.
pub proof fn lemma_brackets_unique(g: Grid, p: Point, d: Point, c: Cell, n: int, m: int)
    requires
        brackets(g, p, d, c, n),
        brackets(g, p, d, c, m),
    ensures
        n == m,
{
    if n < m {
        assert(rival_at(g, p, d, c, n + 1));
    } else if m < n {
        assert(rival_at(g, p, d, c, m + 1));
    }
}

/// Where `n` discs are bracketed, `n` is the number captured.
pub proof fn lemma_captured_is(g: Grid, p: Point, d: Point, c: Cell, n: int)
    requires
        brackets(g, p, d, c, n),
    ensures
        captures(g, p, d, c),
        captured(g, p, d, c) == n,
{
    lemma_brackets_unique(g, p, d, c, n, captured(g, p, d, c));
}

/// Colour `c` may be put on square `p`: `c` is a colour, `p` is an empty
/// square of the grid, and a disc of colour `c` there captures along at least
/// one direction.
pub open spec fn putable(g: Grid, p: Point, c: Cell) -> bool {
    &&& c != Cell::Empty
    &&& on_grid(g, p.x as int, p.y as int)
    &&& disc(g, p.x as int, p.y as int) == Cell::Empty
    &&& exists|d: Point| is_direction(d) && #[trigger] captures(g, p, d, c)
}

/// The square `(x, y)` is one of the first `n` squares from `p` along `d`.
pub open spec fn in_run(p: Point, d: Point, n: int, x: int, y: int) -> bool {
    exists|i: int| 1 <= i <= n && #[trigger] lies_at(p, d, i, x, y)
}

/// Putting colour `c` on `p` turns the disc on square `(x, y)` along `d`: the
/// move captures along `d`, and the square is one of those bracketed.
pub open spec fn turned_along(g: Grid, p: Point, d: Point, c: Cell, x: int, y: int) -> bool {
    captures(g, p, d, c) && in_run(p, d, captured(g, p, d, c), x, y)
}

/// Putting colour `c` on `p` turns the disc on square `(x, y)`: the square is
/// one of those bracketed along some direction.
pub open spec fn turned(g: Grid, p: Point, c: Cell, x: int, y: int) -> bool {
    exists|d: Point| is_direction(d) && #[trigger] turned_along(g, p, d, c, x, y)
}

/// The cell of square `(x, y)` after colour `c` was put on `p`.
pub open spec fn disc_after(g: Grid, p: Point, c: Cell, x: int, y: int) -> Cell {
    if (x == p.x && y == p.y) || turned(g, p, c, x, y) {
        c
    } else {
        disc(g, x, y)
    }
}

/// The grid after colour `c` was put on `p`: the new disc is placed, every
/// bracketed disc is turned to `c`, and nothing else changes.
pub open spec fn after_move(g: Grid, p: Point, c: Cell) -> Grid {
    Seq::new(g.len(), |r: int| Seq::new(g[r].len(), |k: int| disc_after(g, p, c, k + 1, r + 1)))
}

/// The grid `g` with the first `n` squares from `p` along `d` set to `c`.
pub open spec fn painted(g: Grid, p: Point, d: Point, c: Cell, n: int) -> Grid {
    Seq::new(
        g.len(),
        |r: int|
            Seq::new(
                g[r].len(),
                |k: int|
                    if in_run(p, d, n, k + 1, r + 1) {
                        c
                    } else {
                        g[r][k]
                    },
            ),
    )
}

/// The grid `g` after the discs that a disc of colour `c` at `p` brackets
/// along `d` were turned; `g` itself where it captures nothing along `d`.
pub open spec fn after_line(g: Grid, p: Point, d: Point, c: Cell) -> Grid {
    if captures(g, p, d, c) {
        painted(g, p, d, c, captured(g, p, d, c))
    } else {
        g
    }
}

/// Putting colour `c` on `p` turns the disc on square `(x, y)` along one of
/// the first `k` directions.
pub open spec fn turned_among(g: Grid, p: Point, c: Cell, k: int, x: int, y: int) -> bool {
    exists|j: int| 0 <= j < k && #[trigger] turned_along(g, p, direction(j), c, x, y)
}

/// The grid `g` after the discs that a disc of colour `c` at `p` brackets
/// along the first `k` directions were turned.
pub open spec fn swept(g: Grid, p: Point, c: Cell, k: int) -> Grid {
    Seq::new(
        g.len(),
        |r: int|
            Seq::new(
                g[r].len(),
                |i: int|
                    if turned_among(g, p, c, k, i + 1, r + 1) {
                        c
                    } else {
                        g[r][i]
                    },
            ),
    )
}

/// The grids `g` and `h` have one shape and hold the same cell on every square
/// along `d` from `p`.
pub open spec fn same_line(g: Grid, h: Grid, p: Point, d: Point) -> bool {
    &&& g.len() == h.len()
    &&& forall|r: int| 0 <= r < g.len() ==> (#[trigger] g[r]).len() == h[r].len()
    &&& forall|i: int, x: int, y: int|
        i >= 1 && #[trigger] lies_at(p, d, i, x, y) && on_grid(g, x, y) ==> disc(g, x, y) == disc(
            h,
            x,
            y,
        )
}

/// What is bracketed along a line in one grid is bracketed in every grid that
/// agrees with it on that line.
proof fn lemma_brackets_transfer(g: Grid, h: Grid, p: Point, d: Point, c: Cell, n: int)
    requires
        same_line(g, h, p, d),
        brackets(g, p, d, c, n),
    ensures
        brackets(h, p, d, c, n),
{
    assert forall|i: int| 1 <= i <= n implies #[trigger] rival_at(h, p, d, c, i) by {
        let x = travel(p.x as int, d.x as int, i);
        let y = travel(p.y as int, d.y as int, i);
        assert(rival_at(g, p, d, c, i));
        assert(lies_at(p, d, i, x, y));
        assert(g[y - 1].len() == h[y - 1].len());
    }
    let x = travel(p.x as int, d.x as int, n + 1);
    let y = travel(p.y as int, d.y as int, n + 1);
    assert(lies_at(p, d, n + 1, x, y));
    assert(g[y - 1].len() == h[y - 1].len());
}

/// Two grids of one shape that agree on every square along `d` from `p`
/// bracket the same discs along `d`.
pub proof fn lemma_same_line(g: Grid, h: Grid, p: Point, d: Point, c: Cell)
    requires
        same_line(g, h, p, d),
    ensures
        captures(g, p, d, c) == captures(h, p, d, c),
        captures(g, p, d, c) ==> captured(g, p, d, c) == captured(h, p, d, c),
        forall|x: int, y: int|
            turned_along(g, p, d, c, x, y) == turned_along(h, p, d, c, x, y),
{
    assert(same_line(h, g, p, d)) by {
        assert forall|i: int, x: int, y: int|
            i >= 1 && #[trigger] lies_at(p, d, i, x, y) && on_grid(h, x, y) implies disc(h, x, y)
            == disc(g, x, y) by {
            assert(g[y - 1].len() == h[y - 1].len());
        }
    }
    if captures(g, p, d, c) {
        let n = captured(g, p, d, c);
        lemma_brackets_transfer(g, h, p, d, c, n);
        lemma_captured_is(h, p, d, c, n);
    }
    if captures(h, p, d, c) {
        let n = captured(h, p, d, c);
        lemma_brackets_transfer(h, g, p, d, c, n);
        lemma_captured_is(g, p, d, c, n);
    }
}

/// The lines that leave a square in different directions share no square.
pub proof fn lemma_lines_disjoint(p: Point, d: Point, e: Point, i: int, j: int, x: int, y: int)
    requires
        is_direction(d),
        is_direction(e),
        i >= 1,
        j >= 1,
        lies_at(p, d, i, x, y),
        lies_at(p, e, j, x, y),
    ensures
        d == e,
        i == j,
{
}

/// The squares of a `width` by `height` board in reading order: row by row
/// from the top, each row from the left.
pub open spec fn squares(width: int, height: int) -> Seq<Point> {
    Seq::new(
        (width * height) as nat,
        |k: int| Point { x: (k % width + 1) as isize, y: (k / width + 1) as isize },
    )
}

/// The test that [`putable_squares`] applies to each square.
pub open spec fn putable_on(g: Grid, c: Cell) -> spec_fn(Point) -> bool {
    |p: Point| putable(g, p, c)
}

/// The squares on which colour `c` may be put, in reading order.
pub open spec fn putable_squares(g: Grid, width: int, height: int, c: Cell) -> Seq<Point> {
    squares(width, height).filter(putable_on(g, c))
}

/// The square in column `x` of row `y` is the `((y - 1) * width + (x - 1))`-th
/// in reading order.
pub proof fn lemma_square_index(width: int, height: int, x: int, y: int)
    requires
        1 <= x <= width < isize::MAX,
        1 <= y <= height < isize::MAX,
    ensures
        0 <= (y - 1) * width + (x - 1) < width * height,
        squares(width, height)[(y - 1) * width + (x - 1)] == (Point {
            x: x as isize,
            y: y as isize,
        }),
{
    let k = (y - 1) * width + (x - 1);
    assert(0 <= (y - 1) * width && (y - 1) * width + width <= width * height)
        by (nonlinear_arith)
        requires
            1 <= y <= height,
            1 <= width,
    ;
    vstd::arithmetic::div_mod::lemma_fundamental_div_mod_converse(k, width, y - 1, x - 1);
}

/// The number of discs that putting colour `c` on `p` turns along `d`.
pub open spec fn turned_along_count(g: Grid, p: Point, d: Point, c: Cell) -> nat {
    if captures(g, p, d, c) {
        captured(g, p, d, c) as nat
    } else {
        0
    }
}

/// The number of discs that putting colour `c` on `p` turns along the first
/// `k` directions.
pub open spec fn turned_count(g: Grid, p: Point, c: Cell, k: int) -> nat
    decreases k,
{
    if k <= 0 {
        0
    } else {
        turned_count(g, p, c, k - 1) + turned_along_count(g, p, direction(k - 1), c)
    }
}

/// The number of discs that putting colour `c` on `p` turns.
pub open spec fn total_turned(g: Grid, p: Point, c: Cell) -> nat {
    turned_count(g, p, c, 8)
}

/// The cell that the starting position of a `width` by `height` board has on
/// square `(x, y)`: the four central squares hold two discs of each colour,
/// dark on the diagonal that runs from upper left to lower right.
pub open spec fn initial_disc(width: int, height: int, x: int, y: int) -> Cell {
    let cx = width / 2;
    let cy = height / 2;
    if (x == cx && y == cy) || (x == cx + 1 && y == cy + 1) {
        Cell::Dark
    } else if (x == cx + 1 && y == cy) || (x == cx && y == cy + 1) {
        Cell::Light
    } else {
        Cell::Empty
    }
}

/// The starting position of a `width` by `height` board.
pub open spec fn initial_grid(width: int, height: int) -> Grid {
    Seq::new(
        height as nat,
        |r: int| Seq::new(width as nat, |k: int| initial_disc(width, height, k + 1, r + 1)),
    )
}

} // verus!
