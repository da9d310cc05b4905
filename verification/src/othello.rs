use crate::cell::Cell;
use crate::count::{
    count, count_in_row, lemma_count_next, lemma_count_row_next, lemma_count_with_disc,
    with_disc,
};
use crate::laws::lemma_initial_position;
use crate::point::Point;
use crate::rules::{
    after_line, after_move, brackets, captured, captures, direction, direction_index, disc,
    in_run, initial_grid, is_direction, lemma_directions, lemma_lines_disjoint,
    lemma_run_broken, lemma_same_line, lemma_square_index, lies_at, on_grid, own_at, painted,
    playable, putable, putable_on, putable_squares, rectangular, rival_at, same_line, squares,
    swept, total_turned, turned, turned_along, turned_along_count, turned_among, turned_count,
    Grid,
};
use crate::text::{
    glyphs, lemma_glyphs_push, lemma_read_next, lemma_read_prefix, lemma_render_rows_push, parse,
    read, render, render_rows,
};
use std::ops::AddAssign;
use vstd::prelude::*;
use vstd::string::*;

verus! {

/// Why a move was refused.
#[derive(Debug, Clone, Copy, PartialEq, Eq, Structural)]
pub enum OthelloError {
    /// The colour to move was `Cell::Empty`.
    InvalidColor,
    /// The square is occupied, or a disc there would capture nothing.
    DoNotPut,
}

/// A board size that no game can be played on.
#[derive(Debug, Clone, Copy, PartialEq, Eq, Structural)]
pub struct InvalidSize;

/// A rectangular Othello board.
#[derive(PartialEq, Debug)]
pub struct Othello {
    width: usize,
    height: usize,
    board: Vec<Vec<Cell>>,
}

impl View for Othello {
    type V = Grid;

    /// The contents of the board, row by row.
    closed spec fn view(&self) -> Grid {
        grid_of(self.board@)
    }
}

impl Clone for Othello {
    /// A board of the same size that holds the same discs.
    fn clone(&self) -> (copy: Othello)
        ensures
            copy@ == self@,
            copy.spec_width() == self.spec_width(),
            copy.spec_height() == self.spec_height(),
    {
        let mut board: Vec<Vec<Cell>> = Vec::with_capacity(self.board.len());
        let mut r: usize = 0;
        while r < self.board.len()
            invariant
                r <= self.board@.len(),
                board@.len() == r,
                forall|i: int| 0 <= i < r ==> (#[trigger] board@[i])@ == self.board@[i]@,
            decreases self.board@.len() - r,
        {
            let mut row: Vec<Cell> = Vec::with_capacity(self.board[r].len());
            let mut k: usize = 0;
            while k < self.board[r].len()
                invariant
                    r < self.board@.len(),
                    k <= self.board@[r as int]@.len(),
                    row@.len() == k,
                    forall|j: int| 0 <= j < k ==> (#[trigger] row@[j]) == self.board@[r as int]@[j],
                decreases self.board@[r as int]@.len() - k,
            {
                row.push(self.board[r][k]);
                k = k + 1;
            }
            assert(row@ =~= self.board@[r as int]@);
            board.push(row);
            r = r + 1;
        }
        let copy = Othello { width: self.width, height: self.height, board };
        assert(copy@ =~= self@);
        copy
    }
}

/// The cells that a vector of rows holds.
spec fn grid_of(rows: Seq<Vec<Cell>>) -> Grid {
    Seq::new(rows.len(), |r: int| rows[r]@)
}

impl Othello {
    /// The number of columns.
    pub closed spec fn spec_width(&self) -> usize {
        self.width
    }

    /// The number of rows.
    pub closed spec fn spec_height(&self) -> usize {
        self.height
    }

    /// The invariant of every board: at least two rows and two columns, every
    /// coordinate below `isize::MAX`, a number of squares that fits `usize`,
    /// and a grid of exactly that size.
    pub open spec fn wf(&self) -> bool {
        &&& 2 <= self.spec_width() < isize::MAX
        &&& 2 <= self.spec_height() < isize::MAX
        &&& self.spec_width() * self.spec_height() <= usize::MAX
        &&& rectangular(self@, self.spec_width() as int, self.spec_height() as int)
    }

    /// A `width` by `height` board in the starting position: empty but for the
    /// four central squares, which hold two discs of each colour, the dark ones
    /// on the diagonal from upper left to lower right.
    pub fn new(width: usize, height: usize) -> (board: Othello)
        requires
            2 <= width < isize::MAX,
            2 <= height < isize::MAX,
            width * height <= usize::MAX,
        ensures
            board.wf(),
            board.spec_width() == width,
            board.spec_height() == height,
            board@ == initial_grid(width as int, height as int),
            count(board@, Cell::Dark) == 2,
            count(board@, Cell::Light) == 2,
            count(board@, Cell::Empty) == width * height - 4,
    {
        proof {
            lemma_initial_position(width as int, height as int);
        }
        let mut board: Vec<Vec<Cell>> = Vec::with_capacity(height);
        let mut r: usize = 0;
        while r < height
            invariant
                r <= height,
                board@.len() == r,
                forall|i: int, k: int|
                    0 <= i < r && 0 <= k < width ==> (#[trigger] board@[i]@[k]) == Cell::Empty,
                forall|i: int| 0 <= i < r ==> (#[trigger] board@[i])@.len() == width,
            decreases height - r,
        {
            let mut row: Vec<Cell> = Vec::with_capacity(width);
            let mut k: usize = 0;
            while k < width
                invariant
                    k <= width,
                    row@.len() == k,
                    forall|j: int| 0 <= j < k ==> (#[trigger] row@[j]) == Cell::Empty,
                decreases width - k,
            {
                row.push(Cell::Empty);
                k = k + 1;
            }
            board.push(row);
            r = r + 1;
        }
        board[height / 2 - 1][width / 2 - 1] = Cell::Dark;
        board[height / 2][width / 2 - 1] = Cell::Light;
        board[height / 2 - 1][width / 2] = Cell::Light;
        board[height / 2][width / 2] = Cell::Dark;
        let othello = Othello { width, height, board };
        proof {
            let want = initial_grid(width as int, height as int);
            assert(othello@.len() == want.len());
            assert forall|i: int| 0 <= i < height implies othello@[i] == want[i] by {
                assert(othello@[i] =~= want[i]);
            }
            assert(othello@ =~= want);
        }
        othello
    }

    /// [`Othello::new`] for any pair of sizes: a size with fewer than two rows
    /// or columns, or one too large for the machine, is refused.
    pub fn try_new(width: usize, height: usize) -> (r: Result<Othello, InvalidSize>)
        ensures
            r is Ok <==> 2 <= width < isize::MAX && 2 <= height < isize::MAX && width * height
                <= usize::MAX,
            r matches Ok(board) ==> {
                &&& board.wf()
                &&& board.spec_width() == width
                &&& board.spec_height() == height
                &&& board@ == initial_grid(width as int, height as int)
            },
    {
        if width < 2 || height < 2 || width >= isize::MAX as usize || height >= isize::MAX as usize {
            return Err(InvalidSize);
        }
        match width.checked_mul(height) {
            Some(_) => Ok(Othello::new(width, height)),
            None => Err(InvalidSize),
        }
    }

    /// The number of columns.
    #[verifier::when_used_as_spec(spec_width)]
    pub fn width(&self) -> (w: usize)
        ensures
            w == self.spec_width(),
    {
        self.width
    }

    /// The number of rows.
    #[verifier::when_used_as_spec(spec_height)]
    pub fn height(&self) -> (h: usize)
        ensures
            h == self.spec_height(),
    {
        self.height
    }

    /// Whether `point` is a square of this board.
    pub fn contains(&self, point: Point) -> (r: bool)
        requires
            self.wf(),
        ensures
            r == on_grid(self@, point.x as int, point.y as int),
    {
        1 <= point.x && point.x <= self.width as isize && 1 <= point.y && point.y
            <= self.height as isize
    }

    /// The cell of a square of this board.
    fn disc_at(&self, point: Point) -> (c: Cell)
        requires
            self.wf(),
            on_grid(self@, point.x as int, point.y as int),
        ensures
            c == disc(self@, point.x as int, point.y as int),
    {
        self.board[(point.y - 1) as usize][(point.x - 1) as usize]
    }

    /// The cell of `point`, or `None` where `point` is no square of this board.
    pub fn get(&self, point: Point) -> (r: Option<Cell>)
        requires
            self.wf(),
        ensures
            r == if on_grid(self@, point.x as int, point.y as int) {
                Some(disc(self@, point.x as int, point.y as int))
            } else {
                None
            },
    {
        if self.contains(point) {
            Some(self.disc_at(point))
        } else {
            None
        }
    }

    /// Whether a disc of `color` put on `point` would capture along `direction`:
    /// the neighbouring square that way holds a rival disc, and the unbroken run
    /// of rival discs that starts there ends at a disc of `color`.
    ///
    /// `direction` has to be one of the eight steps to a neighbouring square,
    /// and the step from `point` has to stay within `isize`; `point` itself need
    /// not be a square of the board.
    pub fn is_putable_line(&self, point: Point, color: Cell, direction: Point) -> (r: bool)
        requires
            self.wf(),
            is_direction(direction),
            point.can_add(direction),
        ensures
            r == captures(self@, point, direction, color),
    {
        let ghost g = self@;
        let mut q = point;
        q.add_assign(direction);
        let mut steps: usize = 1;
        if !self.contains(q) {
            proof {
                lemma_run_broken(g, point, direction, color, 0);
            }
            return false;
        }
        let first = self.disc_at(q);
        if first == color || first == Cell::Empty {
            assert(!brackets(g, point, direction, color, 0));
            assert forall|n: int| !brackets(g, point, direction, color, n) by {
                if n >= 1 {
                    assert(!rival_at(g, point, direction, color, 1));
                }
            }
            return false;
        }
        loop
            invariant
                self.wf(),
                g == self@,
                is_direction(direction),
                1 <= steps <= self.spec_width() + self.spec_height(),
                lies_at(point, direction, steps as int, q.x as int, q.y as int),
                forall|i: int| 1 <= i <= steps ==> #[trigger] rival_at(g, point, direction, color, i),
            decreases self.spec_width() + self.spec_height() - steps,
        {
            assert(rival_at(g, point, direction, color, 1));
            assert(rival_at(g, point, direction, color, steps as int));
            q.add_assign(direction);
            if !self.contains(q) {
                proof {
                    lemma_run_broken(g, point, direction, color, steps as int);
                }
                return false;
            }
            let here = self.disc_at(q);
            if here == color {
                assert(brackets(g, point, direction, color, steps as int));
                return true;
            }
            if here == Cell::Empty {
                proof {
                    lemma_run_broken(g, point, direction, color, steps as int);
                }
                return false;
            }
            steps = steps + 1;
        }
    }

    /// The `k`-th of the eight directions.
    fn nth_direction(k: usize) -> (d: Point)
        requires
            k < 8,
        ensures
            d == direction(k as int),
            is_direction(d),
    {
        if k == 0 {
            Point { x: -1, y: -1 }
        } else if k == 1 {
            Point { x: 0, y: -1 }
        } else if k == 2 {
            Point { x: 1, y: -1 }
        } else if k == 3 {
            Point { x: -1, y: 0 }
        } else if k == 4 {
            Point { x: 1, y: 0 }
        } else if k == 5 {
            Point { x: -1, y: 1 }
        } else if k == 6 {
            Point { x: 0, y: 1 }
        } else {
            Point { x: 1, y: 1 }
        }
    }

    /// Whether `color` may be put on `point`: `color` is a colour, the square
    /// is empty, and a disc there would capture along at least one direction.
    ///
    /// `point` has to be a square of the board unless `color` is `Cell::Empty`.
    pub fn is_putable(&self, point: Point, color: Cell) -> (r: bool)
        requires
            self.wf(),
            color != Cell::Empty ==> on_grid(self@, point.x as int, point.y as int),
        ensures
            r == putable(self@, point, color),
    {
        if color == Cell::Empty {
            return false;
        }
        if self.disc_at(point) != Cell::Empty {
            return false;
        }
        let mut k: usize = 0;
        while k < 8
            invariant
                self.wf(),
                k <= 8,
                color != Cell::Empty,
                on_grid(self@, point.x as int, point.y as int),
                disc(self@, point.x as int, point.y as int) == Cell::Empty,
                forall|j: int| 0 <= j < k ==> !captures(self@, point, #[trigger] direction(j), color),
            decreases 8 - k,
        {
            let d = Self::nth_direction(k);
            if self.is_putable_line(point, color, d) {
                return true;
            }
            k = k + 1;
        }
        proof {
            assert forall|d: Point| is_direction(d) implies !captures(self@, point, d, color) by {
                lemma_directions(d, 0);
                assert(d == direction(direction_index(d)));
            }
        }
        false
    }

    /// Sets the cell of a square of this board.
    fn put(&mut self, point: Point, color: Cell)
        requires
            old(self).wf(),
            on_grid(old(self)@, point.x as int, point.y as int),
        ensures
            final(self).wf(),
            final(self).spec_width() == old(self).spec_width(),
            final(self).spec_height() == old(self).spec_height(),
            final(self)@ == with_disc(old(self)@, point.x as int, point.y as int, color),
    {
        self.board[(point.y - 1) as usize][(point.x - 1) as usize] = color;
        proof {
            let want = with_disc(old(self)@, point.x as int, point.y as int, color);
            assert forall|r: int| 0 <= r < self@.len() implies self@[r] == want[r] by {
                assert(self@[r] =~= want[r]);
            }
            assert(self@ =~= want);
        }
    }

    /// Turns the discs that a disc of `color` on `point` brackets along
    /// `direction`, where it brackets any; fails with `DoNotPut`, and leaves the
    /// board as it is, where it brackets none.
    fn attack_line(&mut self, point: Point, color: Cell, direction: Point) -> (r: Result<
        (),
        OthelloError,
    >)
        requires
            old(self).wf(),
            color != Cell::Empty,
            is_direction(direction),
            on_grid(old(self)@, point.x as int, point.y as int),
        ensures
            final(self).wf(),
            final(self).spec_width() == old(self).spec_width(),
            final(self).spec_height() == old(self).spec_height(),
            final(self)@ == after_line(old(self)@, point, direction, color),
            r is Ok <==> captures(old(self)@, point, direction, color),
            r is Err ==> r == Err::<(), OthelloError>(OthelloError::DoNotPut),
            count(final(self)@, color) == count(old(self)@, color) + turned_along_count(
                old(self)@,
                point,
                direction,
                color,
            ),
            count(final(self)@, color.spec_opponent()) + turned_along_count(
                old(self)@,
                point,
                direction,
                color,
            ) == count(old(self)@, color.spec_opponent()),
            count(final(self)@, Cell::Empty) == count(old(self)@, Cell::Empty),
    {
        if !self.is_putable_line(point, color, direction) {
            return Err(OthelloError::DoNotPut);
        }
        let ghost g = self@;
        let ghost n = captured(g, point, direction, color);
        let ghost rival = color.spec_opponent();
        assert(brackets(g, point, direction, color, n));
        assert(rival_at(g, point, direction, color, 1));
        let mut q = point;
        q.add_assign(direction);
        proof {
            lemma_count_with_disc(g, q.x as int, q.y as int, color, color);
            lemma_count_with_disc(g, q.x as int, q.y as int, color, rival);
            lemma_count_with_disc(g, q.x as int, q.y as int, color, Cell::Empty);
        }
        self.put(q, color);
        let mut steps: usize = 1;
        assert(self@ =~= painted(g, point, direction, color, 1)) by {
            assert(lies_at(point, direction, 1, q.x as int, q.y as int));
            assert forall|r: int| 0 <= r < g.len() implies self@[r] =~= painted(
                g,
                point,
                direction,
                color,
                1,
            )[r] by {
                assert forall|k: int| 0 <= k < g[r].len() implies self@[r][k] == painted(
                    g,
                    point,
                    direction,
                    color,
                    1,
                )[r][k] by {
                    if in_run(point, direction, 1, k + 1, r + 1) {
                        assert(k + 1 == q.x && r + 1 == q.y);
                    }
                }
            }
        }
        loop
            invariant_except_break
                1 <= steps <= n,
                lies_at(point, direction, steps as int, q.x as int, q.y as int),
            invariant
                self.wf(),
                old(self).wf(),
                self.spec_width() == old(self).spec_width(),
                self.spec_height() == old(self).spec_height(),
                g == old(self)@,
                is_direction(direction),
                brackets(g, point, direction, color, n),
                self@ == painted(g, point, direction, color, steps as int),
                color != Cell::Empty,
                rival == color.spec_opponent(),
                count(self@, color) == count(g, color) + steps,
                count(self@, rival) + steps == count(g, rival),
                count(self@, Cell::Empty) == count(g, Cell::Empty),
            ensures
                steps == n,
            decreases n - steps,
        {
            let ghost before = self@;
            assert(rival_at(g, point, direction, color, steps as int));
            q.add_assign(direction);
            assert(lies_at(point, direction, steps + 1, q.x as int, q.y as int));
            assert(!in_run(point, direction, steps as int, q.x as int, q.y as int));
            proof {
                if steps < n {
                    assert(rival_at(g, point, direction, color, steps + 1));
                } else {
                    assert(own_at(g, point, direction, color, steps + 1));
                }
            }
            if self.disc_at(q) == color {
                break ;
            }
            proof {
                lemma_count_with_disc(before, q.x as int, q.y as int, color, color);
                lemma_count_with_disc(before, q.x as int, q.y as int, color, rival);
                lemma_count_with_disc(before, q.x as int, q.y as int, color, Cell::Empty);
            }
            self.put(q, color);
            steps = steps + 1;
            assert(self@ =~= painted(g, point, direction, color, steps as int)) by {
                assert forall|r: int| 0 <= r < g.len() implies self@[r] =~= painted(
                    g,
                    point,
                    direction,
                    color,
                    steps as int,
                )[r] by {
                    assert forall|k: int| 0 <= k < g[r].len() implies self@[r][k] == painted(
                        g,
                        point,
                        direction,
                        color,
                        steps as int,
                    )[r][k] by {
                        if in_run(point, direction, steps as int, k + 1, r + 1) {
                            if !in_run(point, direction, steps - 1, k + 1, r + 1) {
                                assert(lies_at(point, direction, steps as int, k + 1, r + 1));
                            }
                        }
                        if in_run(point, direction, steps - 1, k + 1, r + 1) {
                            assert(in_run(point, direction, steps as int, k + 1, r + 1));
                        }
                    }
                }
            }
        }
        Ok(())
    }

    /// Puts a disc of `color` on `point` and turns every disc that it brackets,
    /// along all eight directions.
    ///
    /// The move is refused, and the board left as it is, with `InvalidColor`
    /// where `color` is `Cell::Empty`, and with `DoNotPut` where the square is
    /// occupied or the disc would capture nothing. `point` has to be a square
    /// of the board unless `color` is `Cell::Empty`.
    pub fn attack(&mut self, point: Point, color: Cell) -> (r: Result<&Othello, OthelloError>)
        requires
            old(self).wf(),
            color != Cell::Empty ==> on_grid(old(self)@, point.x as int, point.y as int),
        ensures
            final(self).wf(),
            final(self).spec_width() == old(self).spec_width(),
            final(self).spec_height() == old(self).spec_height(),
            r is Ok <==> putable(old(self)@, point, color),
            r matches Ok(board) ==> *board == *final(self),
            r is Ok ==> final(self)@ == after_move(old(self)@, point, color),
            r is Ok ==> count(final(self)@, Cell::Empty) == count(old(self)@, Cell::Empty) - 1,
            r is Ok ==> count(final(self)@, color) == count(old(self)@, color) + 1 + total_turned(
                old(self)@,
                point,
                color,
            ),
            r is Ok ==> count(final(self)@, color.spec_opponent()) == count(
                old(self)@,
                color.spec_opponent(),
            ) - total_turned(old(self)@, point, color),
            r is Err ==> *final(self) == *old(self),
            r matches Err(e) ==> e == if color == Cell::Empty {
                OthelloError::InvalidColor
            } else {
                OthelloError::DoNotPut
            },
            color == Cell::Empty ==> r matches Err(OthelloError::InvalidColor),
            color != Cell::Empty && disc(old(self)@, point.x as int, point.y as int)
                != Cell::Empty ==> r matches Err(OthelloError::DoNotPut),
    {
        if color == Cell::Empty {
            return Err(OthelloError::InvalidColor);
        }
        if !self.is_putable(point, color) {
            return Err(OthelloError::DoNotPut);
        }
        let ghost g = self@;
        assert(self@ =~= swept(g, point, color, 0)) by {
            assert forall|r: int| 0 <= r < g.len() implies self@[r] =~= swept(g, point, color, 0)[r] by {}
        }
        let mut k: usize = 0;
        while k < 8
            invariant
                k <= 8,
                self.wf(),
                old(self).wf(),
                self.spec_width() == old(self).spec_width(),
                self.spec_height() == old(self).spec_height(),
                g == old(self)@,
                on_grid(g, point.x as int, point.y as int),
                self@ == swept(g, point, color, k as int),
                color != Cell::Empty,
                count(self@, color) == count(g, color) + turned_count(g, point, color, k as int),
                count(self@, color.spec_opponent()) + turned_count(g, point, color, k as int)
                    == count(g, color.spec_opponent()),
                count(self@, Cell::Empty) == count(g, Cell::Empty),
            decreases 8 - k,
        {
            let d = Self::nth_direction(k);
            let ghost h = self@;
            let _ = self.attack_line(point, color, d);
            proof {
                assert(same_line(g, h, point, d)) by {
                    assert forall|i: int, x: int, y: int|
                        i >= 1 && #[trigger] lies_at(point, d, i, x, y) && on_grid(
                            g,
                            x,
                            y,
                        ) implies disc(g, x, y) == disc(h, x, y) by {
                        if turned_among(g, point, color, k as int, x, y) {
                            let j = choose|j: int|
                                0 <= j < k && #[trigger] turned_along(
                                    g,
                                    point,
                                    direction(j),
                                    color,
                                    x,
                                    y,
                                );
                            let m = choose|m: int|
                                1 <= m <= captured(g, point, direction(j), color)
                                    && #[trigger] lies_at(point, direction(j), m, x, y);
                            lemma_directions(d, j);
                            lemma_lines_disjoint(point, d, direction(j), i, m, x, y);
                        }
                    }
                }
                lemma_same_line(g, h, point, d, color);
                assert(self@ =~= swept(g, point, color, k + 1)) by {
                    assert forall|r: int| 0 <= r < g.len() implies self@[r] =~= swept(
                        g,
                        point,
                        color,
                        k + 1,
                    )[r] by {
                        assert forall|i: int| 0 <= i < g[r].len() implies self@[r][i] == swept(
                            g,
                            point,
                            color,
                            k + 1,
                        )[r][i] by {
                            let x = i + 1;
                            let y = r + 1;
                            assert(turned_along(g, point, d, color, x, y) == turned_along(
                                h,
                                point,
                                d,
                                color,
                                x,
                                y,
                            ));
                            if turned_among(g, point, color, k + 1, x, y) {
                                let j = choose|j: int|
                                    0 <= j < k + 1 && #[trigger] turned_along(
                                        g,
                                        point,
                                        direction(j),
                                        color,
                                        x,
                                        y,
                                    );
                                if j < k {
                                    assert(turned_among(g, point, color, k as int, x, y));
                                }
                            }
                            if turned_among(g, point, color, k as int, x, y) {
                                let j = choose|j: int|
                                    0 <= j < k && #[trigger] turned_along(
                                        g,
                                        point,
                                        direction(j),
                                        color,
                                        x,
                                        y,
                                    );
                                assert(turned_along(g, point, direction(j), color, x, y));
                            }
                            if turned_along(g, point, d, color, x, y) {
                                assert(turned_along(g, point, direction(k as int), color, x, y));
                            }
                        }
                    }
                }
            }
            k = k + 1;
        }
        proof {
            let h = self@;
            assert(disc(h, point.x as int, point.y as int) == Cell::Empty) by {
                if turned_among(g, point, color, 8, point.x as int, point.y as int) {
                    let j = choose|j: int|
                        0 <= j < 8 && #[trigger] turned_along(
                            g,
                            point,
                            direction(j),
                            color,
                            point.x as int,
                            point.y as int,
                        );
                    lemma_directions(point, j);
                    let m = choose|m: int|
                        1 <= m <= captured(g, point, direction(j), color) && #[trigger] lies_at(
                            point,
                            direction(j),
                            m,
                            point.x as int,
                            point.y as int,
                        );
                }
            }
            lemma_count_with_disc(h, point.x as int, point.y as int, color, color);
            lemma_count_with_disc(h, point.x as int, point.y as int, color, color.spec_opponent());
            lemma_count_with_disc(h, point.x as int, point.y as int, color, Cell::Empty);
        }
        self.put(point, color);
        proof {
            let want = after_move(g, point, color);
            assert(self@ =~= want) by {
                assert forall|r: int| 0 <= r < g.len() implies self@[r] =~= want[r] by {
                    assert forall|i: int| 0 <= i < g[r].len() implies self@[r][i] == want[r][i] by {
                        let x = i + 1;
                        let y = r + 1;
                        if turned(g, point, color, x, y) {
                            let d = choose|d: Point|
                                is_direction(d) && #[trigger] turned_along(g, point, d, color, x, y);
                            lemma_directions(d, 0);
                            assert(turned_along(
                                g,
                                point,
                                direction(direction_index(d)),
                                color,
                                x,
                                y,
                            ));
                        }
                        if turned_among(g, point, color, 8, x, y) {
                            let j = choose|j: int|
                                0 <= j < 8 && #[trigger] turned_along(
                                    g,
                                    point,
                                    direction(j),
                                    color,
                                    x,
                                    y,
                                );
                            lemma_directions(point, j);
                        }
                    }
                }
            }
        }
        Ok(self)
    }

    /// The squares on which `color` may be put, in reading order: row by row
    /// from the top, each row from the left. The list is empty where `color`
    /// has no move.
    pub fn generate_putable_list(&self, color: Cell) -> (list: Vec<Point>)
        requires
            self.wf(),
        ensures
            list@ == putable_squares(
                self@,
                self.spec_width() as int,
                self.spec_height() as int,
                color,
            ),
    {
        let ghost w = self.spec_width() as int;
        let ghost h = self.spec_height() as int;
        let ghost all = squares(w, h);
        let ghost test = putable_on(self@, color);
        let mut putable_list: Vec<Point> = Vec::new();
        let mut y: usize = 1;
        assert(all.take(0) =~= Seq::<Point>::empty());
        assert(all.take(0).filter(test) =~= Seq::<Point>::empty()) by {
            reveal(Seq::filter);
        }
        assert((y - 1) * w == 0) by (nonlinear_arith)
            requires
                y == 1,
        ;
        while y <= self.height
            invariant
                self.wf(),
                w == self.spec_width(),
                h == self.spec_height(),
                all == squares(w, h),
                test == putable_on(self@, color),
                1 <= y <= h + 1,
                0 <= (y - 1) * w <= w * h,
                putable_list@ == all.take((y - 1) * w).filter(test),
            decreases h + 1 - y,
        {
            let mut x: usize = 1;
            while x <= self.width
                invariant
                    self.wf(),
                    w == self.spec_width(),
                    h == self.spec_height(),
                    all == squares(w, h),
                    test == putable_on(self@, color),
                    1 <= y <= h,
                    1 <= x <= w + 1,
                    0 <= (y - 1) * w + (x - 1) <= w * h,
                    putable_list@ == all.take((y - 1) * w + (x - 1)).filter(test),
                decreases w + 1 - x,
            {
                let point = Point { x: x as isize, y: y as isize };
                let ghost k = (y - 1) * w + (x - 1);
                proof {
                    lemma_square_index(w, h, x as int, y as int);
                    assert(all.take(k + 1) =~= all.take(k).push(point));
                    all.take(k).lemma_filter_push(point, test);
                }
                if self.is_putable(point, color) {
                    putable_list.push(point);
                }
                x = x + 1;
            }
            assert((y - 1) * w + w == (y + 1 - 1) * w) by (nonlinear_arith);
            y = y + 1;
        }
        assert((y - 1) * w == w * h) by (nonlinear_arith)
            requires
                y == h + 1,
        ;
        assert(all.take(w * h) =~= all);
        putable_list
    }

    /// The board as text: one line for each row, top to bottom, with the glyph
    /// of each cell from left to right, and an empty line at the end.
    pub fn to_string(&self) -> (s: String)
        requires
            self.wf(),
        ensures
            s@ == render(self@),
    {
        let ghost g = self@;
        let mut s = String::new();
        let mut r: usize = 0;
        proof {
            reveal_strlit(" ");
            reveal_strlit("x");
            reveal_strlit("o");
            reveal_strlit("\n");
            assert(g.take(0) =~= Seq::<Seq<Cell>>::empty());
            assert(s@ =~= render_rows(g.take(0)));
        }
        while r < self.height
            invariant
                self.wf(),
                g == self@,
                r <= self.spec_height(),
                s@ == render_rows(g.take(r as int)),
                " "@ == seq![' '],
                "x"@ == seq!['x'],
                "o"@ == seq!['o'],
                "\n"@ == seq!['\n'],
            decreases self.spec_height() - r,
        {
            let ghost above = s@;
            let mut k: usize = 0;
            assert(g[r as int].take(0) =~= Seq::<Cell>::empty());
            assert(s@ =~= above + glyphs(g[r as int].take(0)));
            while k < self.width
                invariant
                    self.wf(),
                    g == self@,
                    r < self.spec_height(),
                    k <= self.spec_width(),
                    s@ == above + glyphs(g[r as int].take(k as int)),
                    " "@ == seq![' '],
                    "x"@ == seq!['x'],
                    "o"@ == seq!['o'],
                decreases self.spec_width() - k,
            {
                let cell = self.board[r][k];
                proof {
                    assert(cell == g[r as int][k as int]);
                    assert(g[r as int].take(k + 1) =~= g[r as int].take(k as int).push(cell));
                    lemma_glyphs_push(g[r as int].take(k as int), cell);
                }
                match cell {
                    Cell::Empty => s.append(" "),
                    Cell::Dark => s.append("x"),
                    Cell::Light => s.append("o"),
                }
                k = k + 1;
                assert(s@ =~= above + glyphs(g[r as int].take(k as int)));
            }
            s.append("\n");
            proof {
                assert(g[r as int].take(k as int) =~= g[r as int]);
                assert(g.take(r + 1) =~= g.take(r as int).push(g[r as int]));
                lemma_render_rows_push(g.take(r as int), g[r as int]);
            }
            r = r + 1;
        }
        s.append("\n");
        assert(g.take(r as int) =~= g);
        s
    }

    /// The board that `text` spells, or `None` where it spells none: `text`
    /// has to be what [`Othello::to_string`] writes for some board.
    pub fn from_text(text: &str) -> (r: Option<Othello>)
        ensures
            r is Some <==> (parse(text@) matches Some(g) && playable(g)),
            r matches Some(board) ==> board.wf() && parse(text@) == Some(board@),
    {
        let n: usize = text.unicode_len();
        let mut rows: Vec<Vec<Cell>> = Vec::new();
        let mut row: Vec<Cell> = Vec::new();
        let mut done = false;
        let mut i: usize = 0;
        proof {
            assert(text@.take(0) =~= Seq::<char>::empty());
            assert(grid_of(rows@) =~= Seq::<Seq<Cell>>::empty());
            assert(row@ =~= Seq::<Cell>::empty());
        }
        while i < n
            invariant
                n == text@.len(),
                i <= n,
                read(text@.take(i as int)) == Some((grid_of(rows@), row@, done)),
            decreases n - i,
        {
            let ch = text.get_char(i);
            proof {
                lemma_read_next(text@, i as int);
            }
            if done {
                proof {
                    lemma_read_prefix(text@, i + 1);
                }
                return None;
            }
            if ch == '\n' {
                if row.len() == 0 {
                    done = true;
                } else {
                    proof {
                        assert(grid_of(rows@.push(row)) =~= grid_of(rows@).push(row@));
                    }
                    rows.push(row);
                    row = Vec::new();
                    assert(row@ =~= Seq::<Cell>::empty());
                }
            } else {
                match Cell::from_glyph(ch) {
                    Some(c) => {
                        row.push(c);
                    },
                    None => {
                        proof {
                            lemma_read_prefix(text@, i + 1);
                        }
                        return None;
                    },
                }
            }
            i = i + 1;
        }
        assert(text@.take(n as int) =~= text@);
        if !done {
            return None;
        }
        let ghost g = grid_of(rows@);
        let height: usize = rows.len();
        if height < 2 || height >= isize::MAX as usize {
            return None;
        }
        let width: usize = rows[0].len();
        if width < 2 || width >= isize::MAX as usize {
            return None;
        }
        if width.checked_mul(height).is_none() {
            return None;
        }
        let mut j: usize = 0;
        while j < height
            invariant
                j <= height,
                height == rows@.len(),
                g == grid_of(rows@),
                g.len() == height,
                width == g[0].len(),
                width * height <= usize::MAX,
                parse(text@) == Some(g),
                forall|r: int| 0 <= r < j ==> (#[trigger] g[r]).len() == width,
            decreases height - j,
        {
            if rows[j].len() != width {
                assert(g[j as int].len() != g[0].len());
                return None;
            }
            j = j + 1;
        }
        Some(Othello { width, height, board: rows })
    }

    /// The number of squares that hold `color`: the discs of a colour, or the
    /// empty squares for `Cell::Empty`.
    pub fn count(&self, color: Cell) -> (n: usize)
        requires
            self.wf(),
        ensures
            n == count(self@, color),
    {
        let ghost g = self@;
        let ghost w = self.spec_width() as int;
        let ghost h = self.spec_height() as int;
        let mut n: usize = 0;
        let mut r: usize = 0;
        assert(g.take(0) =~= Seq::<Seq<Cell>>::empty());
        assert(0 * w == 0) by (nonlinear_arith);
        while r < self.height
            invariant
                self.wf(),
                g == self@,
                w == self.spec_width(),
                h == self.spec_height(),
                r <= h,
                n == count(g.take(r as int), color),
                n <= r * w,
            decreases h - r,
        {
            let ghost above = n;
            let mut k: usize = 0;
            assert(g[r as int].take(0) =~= Seq::<Cell>::empty());
            assert(r * w + w <= w * h) by (nonlinear_arith)
                requires
                    0 <= r < h,
                    0 <= w,
            ;
            while k < self.width
                invariant
                    self.wf(),
                    g == self@,
                    w == self.spec_width(),
                    r < self.spec_height(),
                    k <= w,
                    n == above + count_in_row(g[r as int].take(k as int), color),
                    n <= above + k,
                    above + w <= usize::MAX,
                decreases w - k,
            {
                proof {
                    lemma_count_row_next(g[r as int], k as int, color);
                }
                if self.board[r][k] == color {
                    n = n + 1;
                }
                k = k + 1;
            }
            proof {
                assert(g[r as int].take(k as int) =~= g[r as int]);
                lemma_count_next(g, r as int, color);
                assert((r + 1) * w == r * w + w) by (nonlinear_arith);
            }
            r = r + 1;
        }
        assert(g.take(r as int) =~= g);
        n
    }
}

} // verus!
