//! A game of random moves: who is to move, which move is made, and when the
//! game is over.

use crate::cell::Cell;
use crate::count::{count, lemma_total};
use crate::laws::lemma_putable_list_exact;
use crate::othello::{Othello, OthelloError};
use crate::point::Point;
use crate::rules::{after_move, on_grid, putable, putable_squares};
use rand::rngs::ThreadRng;
use rand::seq::SliceRandom;
use vstd::prelude::*;

verus! {

/// The random number generator of [`rand::thread_rng`], which nothing here looks into.
#[verifier::external_type_specification]
#[verifier::external_body]
pub struct ExThreadRng(ThreadRng);

/// `rand::thread_rng`: the random number generator of the current thread.
/// Nothing is claimed of it.
#[verifier::external_body]
fn thread_rng() -> (rng: ThreadRng) {
    rand::thread_rng()
}

/// `rand::seq::SliceRandom::shuffle` on the squares of `list`: the squares
/// are put in a random order. The claim is that the call only reorders: every
/// square is in the list as often as it was before.
#[verifier::external_body]
fn shuffle(list: &mut Vec<Point>, rng: &mut ThreadRng)
    ensures
        final(list)@.to_multiset() == old(list)@.to_multiset(),
{
    list.shuffle(rng);
}

/// What one turn of a game came to.
#[derive(Debug, Clone, Copy, PartialEq, Eq, Structural)]
pub enum Turn {
    /// `color` put a disc on `point`.
    Moved { color: Cell, point: Point },
    /// Neither colour has a move: the game is over.
    Over,
}

/// The squares on which `c` may be put on `board`, in reading order.
pub open spec fn moves(board: Othello, c: Cell) -> Seq<Point> {
    putable_squares(board@, board.spec_width() as int, board.spec_height() as int, c)
}

/// The colour that moves where `color` is to move: `color` itself where it has
/// a move, its opponent where only that one has a move, and none where
/// neither has.
pub open spec fn mover(board: Othello, color: Cell) -> Option<Cell> {
    if moves(board, color).len() > 0 {
        Some(color)
    } else if moves(board, color.spec_opponent()).len() > 0 {
        Some(color.spec_opponent())
    } else {
        None
    }
}

/// The colour that moves where `color` is to move, with its moves in reading
/// order; `None` where neither colour has a move.
pub fn next_mover(board: &Othello, color: Cell) -> (r: Option<(Cell, Vec<Point>)>)
    requires
        board.wf(),
    ensures
        r is Some <==> mover(*board, color) is Some,
        r matches Some((c, list)) ==> mover(*board, color) == Some(c) && list@ == moves(*board, c),
{
    let list = board.generate_putable_list(color);
    if list.len() > 0 {
        return Some((color, list));
    }
    let rival = color.opponent();
    let list = board.generate_putable_list(rival);
    if list.len() > 0 {
        return Some((rival, list));
    }
    None
}

/// Puts a disc of `color` on the first square of `choices`.
///
/// `choices` has to hold a square, and its first square has to be one of the
/// board unless `color` is `Cell::Empty`. The move is made or refused as
/// [`Othello::attack`] makes or refuses it.
pub fn attack_first(board: &mut Othello, color: Cell, choices: &Vec<Point>) -> (r: Result<
    Point,
    OthelloError,
>)
    requires
        old(board).wf(),
        choices@.len() > 0,
        color != Cell::Empty ==> on_grid(old(board)@, choices@[0].x as int, choices@[0].y as int),
    ensures
        final(board).wf(),
        final(board).spec_width() == old(board).spec_width(),
        final(board).spec_height() == old(board).spec_height(),
        r is Ok <==> putable(old(board)@, choices@[0], color),
        r matches Ok(point) ==> point == choices@[0] && final(board)@ == after_move(
            old(board)@,
            point,
            color,
        ),
        r is Err ==> *final(board) == *old(board),
        r matches Err(e) ==> e == if color == Cell::Empty {
            OthelloError::InvalidColor
        } else {
            OthelloError::DoNotPut
        },
{
    let point = choices[0];
    match board.attack(point, color) {
        Ok(_) => Ok(point),
        Err(e) => Err(e),
    }
}

/// One turn of a game of random moves: the colour that is to move puts a
/// disc on a square taken at random from those that it may be put on; where
/// it has no move its opponent moves instead, and where neither has one the
/// game is over and the board stays as it is.
pub fn play_turn(board: &mut Othello, color: Cell) -> (turn: Turn)
    requires
        old(board).wf(),
    ensures
        final(board).wf(),
        final(board).spec_width() == old(board).spec_width(),
        final(board).spec_height() == old(board).spec_height(),
        turn is Over <==> mover(*old(board), color) is None,
        turn is Over ==> *final(board) == *old(board),
        turn matches Turn::Moved { color: c, point } ==> {
            &&& mover(*old(board), color) == Some(c)
            &&& putable(old(board)@, point, c)
            &&& final(board)@ == after_move(old(board)@, point, c)
        },
{
    let (c, mut list) = match next_mover(board, color) {
        Some(found) => found,
        None => {
            return Turn::Over;
        },
    };
    let ghost listed = list@;
    let mut rng = thread_rng();
    shuffle(&mut list, &mut rng);
    proof {
        listed.to_multiset_ensures();
        list@.to_multiset_ensures();
        assert(list@.len() > 0);
        assert(list@.contains(list@[0]));
        assert(list@.to_multiset().count(list@[0]) > 0);
        assert(listed.to_multiset().count(list@[0]) > 0);
        assert(listed.contains(list@[0]));
        lemma_putable_list_exact(
            board@,
            board.spec_width() as int,
            board.spec_height() as int,
            c,
            list@[0],
        );
    }
    match attack_first(board, c, &list) {
        Ok(point) => Turn::Moved { color: c, point },
        Err(_) => Turn::Over,
    }
}

/// A game of random moves on a board.
pub struct Game {
    board: Othello,
    color: Cell,
    discs: usize,
}

impl Game {
    /// The board of the game.
    pub closed spec fn spec_board(&self) -> Othello {
        self.board
    }

    /// The colour that is to move.
    pub closed spec fn spec_color(&self) -> Cell {
        self.color
    }

    /// The number of discs that the game has counted on the board.
    pub closed spec fn spec_discs(&self) -> usize {
        self.discs
    }

    /// The invariant of every game: the board is a board, and the discs
    /// counted are those that lie on it.
    pub open spec fn wf(&self) -> bool {
        &&& self.spec_board().wf()
        &&& self.spec_discs() == count(self.spec_board()@, Cell::Dark) + count(
            self.spec_board()@,
            Cell::Light,
        )
    }

    /// A game on `board` in which `first` is the first to move.
    pub fn new(board: Othello, first: Cell) -> (game: Game)
        requires
            board.wf(),
        ensures
            game.wf(),
            game.spec_board() == board,
            game.spec_color() == first,
    {
        proof {
            lemma_total(board@, board.spec_width() as int, board.spec_height() as int);
        }
        let discs: usize = board.count(Cell::Dark) + board.count(Cell::Light);
        Game { board, color: first, discs }
    }

    /// The board of the game.
    pub fn board(&self) -> (board: &Othello)
        ensures
            *board == self.spec_board(),
    {
        &self.board
    }

    /// The colour that is to move.
    pub fn color(&self) -> (color: Cell)
        ensures
            color == self.spec_color(),
    {
        self.color
    }

    /// The number of discs on the board.
    pub fn discs(&self) -> (discs: usize)
        ensures
            discs == self.spec_discs(),
    {
        self.discs
    }

    /// Plays one turn as [`play_turn`] does. After a move there is one disc
    /// more and the opponent of the colour that moved is to move; where the
    /// game is over nothing changes.
    pub fn step(&mut self) -> (turn: Turn)
        requires
            old(self).wf(),
        ensures
            final(self).wf(),
            turn is Over <==> mover(old(self).spec_board(), old(self).spec_color()) is None,
            turn is Over ==> *final(self) == *old(self),
            turn matches Turn::Moved { color: c, point } ==> {
                &&& mover(old(self).spec_board(), old(self).spec_color()) == Some(c)
                &&& putable(old(self).spec_board()@, point, c)
                &&& final(self).spec_board()@ == after_move(old(self).spec_board()@, point, c)
                &&& final(self).spec_board().spec_width() == old(self).spec_board().spec_width()
                &&& final(self).spec_board().spec_height() == old(self).spec_board().spec_height()
                &&& final(self).spec_color() == c.spec_opponent()
                &&& final(self).spec_discs() == old(self).spec_discs() + 1
            },
    {
        let ghost before = self.board@;
        let turn = play_turn(&mut self.board, self.color);
        match turn {
            Turn::Moved { color, point } => {
                proof {
                    crate::laws::lemma_move_adds_one(before, point, color);
                    lemma_total(
                        self.board@,
                        self.board.spec_width() as int,
                        self.board.spec_height() as int,
                    );
                }
                self.color = color.opponent();
                self.discs = self.discs + 1;
            },
            Turn::Over => {},
        }
        turn
    }

    /// Whether the board holds more discs than it has squares, which ends a
    /// game whatever moves are left. It never does.
    pub fn cap_reached(&self) -> (r: bool)
        requires
            self.wf(),
        ensures
            r == (self.spec_discs() > self.spec_board().spec_width()
                * self.spec_board().spec_height()),
            !r,
    {
        proof {
            lemma_total(
                self.board@,
                self.board.spec_width() as int,
                self.board.spec_height() as int,
            );
        }
        let squares: usize = self.board.width() * self.board.height();
        self.discs > squares
    }
}

} // verus!
