use othello::cell::Cell;
use othello::othello::{Othello, OthelloError};
use othello::point::Point;

fn board_of(text: &str) -> Othello {
    match Othello::from_text(text) {
        Some(board) => board,
        None => panic!("no board: {:?}", text),
    }
}

fn p(x: isize, y: isize) -> Point {
    Point { x, y }
}

const UP_LEFT: Point = Point { x: -1, y: -1 };
const UP: Point = Point { x: 0, y: -1 };
const UP_RIGHT: Point = Point { x: 1, y: -1 };
const LEFT: Point = Point { x: -1, y: 0 };
const RIGHT: Point = Point { x: 1, y: 0 };
const DOWN_LEFT: Point = Point { x: -1, y: 1 };
const DOWN: Point = Point { x: 0, y: 1 };
const DOWN_RIGHT: Point = Point { x: 1, y: 1 };

#[test]
fn opening_has_four_moves_for_dark() {
    let board = Othello::new(8, 8);
    let moves = board.generate_putable_list(Cell::Dark);
    assert_eq!(moves, vec![p(5, 3), p(6, 4), p(3, 5), p(4, 6)]);
}

#[test]
fn opening_has_four_moves_for_light() {
    let board = Othello::new(8, 8);
    let moves = board.generate_putable_list(Cell::Light);
    assert_eq!(moves, vec![p(4, 3), p(3, 4), p(6, 5), p(5, 6)]);
}

#[test]
fn empty_has_no_moves() {
    let board = Othello::new(8, 8);
    assert_eq!(board.generate_putable_list(Cell::Empty), vec![]);
}

#[test]
fn list_is_the_same_when_made_twice() {
    let mut board = Othello::new(8, 8);
    let first = board.generate_putable_list(Cell::Dark);
    let second = board.generate_putable_list(Cell::Dark);
    assert_eq!(first, second);
    assert!(board.attack(p(5, 3), Cell::Dark).is_ok());
    let third = board.generate_putable_list(Cell::Light);
    let fourth = board.generate_putable_list(Cell::Light);
    assert_eq!(third, fourth);
    assert_eq!(third, vec![p(4, 3), p(6, 3), p(6, 5)]);
}

#[test]
fn list_holds_exactly_the_putable_squares() {
    let board = board_of(" xo \nooxo\nxoo \n  x \n\n");
    for color in [Cell::Dark, Cell::Light, Cell::Empty] {
        let list = board.generate_putable_list(color);
        let mut want: Vec<Point> = Vec::new();
        for y in 1..=4isize {
            for x in 1..=4isize {
                if board.is_putable(p(x, y), color) {
                    want.push(p(x, y));
                }
            }
        }
        assert_eq!(list, want);
    }
}

#[test]
fn attack_with_empty_is_invalid_color() {
    let mut board = Othello::new(8, 8);
    let before = board.clone();
    for point in [p(5, 3), p(4, 4), p(1, 1), p(0, 0), p(9, 9), p(-4, 100)] {
        assert!(matches!(
            board.attack(point, Cell::Empty),
            Err(OthelloError::InvalidColor)
        ));
        assert_eq!(board, before);
    }
}

#[test]
fn attack_on_a_disc_is_do_not_put() {
    let mut board = Othello::new(8, 8);
    let before = board.clone();
    for point in [p(4, 4), p(5, 4), p(4, 5), p(5, 5)] {
        for color in [Cell::Dark, Cell::Light] {
            assert!(matches!(
                board.attack(point, color),
                Err(OthelloError::DoNotPut)
            ));
            assert_eq!(board, before);
        }
    }
}

#[test]
fn attack_that_captures_nothing_is_do_not_put() {
    let mut board = Othello::new(8, 8);
    let before = board.clone();
    for point in [p(1, 1), p(8, 8), p(3, 3), p(4, 3), p(6, 6)] {
        assert!(matches!(
            board.attack(point, Cell::Dark),
            Err(OthelloError::DoNotPut)
        ));
        assert_eq!(board, before);
    }
}

#[test]
fn attack_turns_the_one_bracketed_disc() {
    let mut board = Othello::new(8, 8);
    let before = board.clone();
    assert!(board.attack(p(5, 3), Cell::Dark).is_ok());
    for y in 1..=8isize {
        for x in 1..=8isize {
            let want = if (x, y) == (5, 3) || (x, y) == (5, 4) {
                Some(Cell::Dark)
            } else {
                before.get(p(x, y))
            };
            assert_eq!(board.get(p(x, y)), want);
        }
    }
    assert_eq!(board.count(Cell::Dark), 4);
    assert_eq!(board.count(Cell::Light), 1);
    assert_eq!(board.count(Cell::Empty), 59);
}

#[test]
fn attack_hands_back_the_board() {
    let mut board = Othello::new(8, 8);
    let text = match board.attack(p(5, 3), Cell::Dark) {
        Ok(after) => after.to_string(),
        Err(e) => panic!("refused: {:?}", e),
    };
    assert_eq!(text, board.to_string());
    assert_eq!(
        text,
        "        \n        \n    x   \n   xx   \n   ox   \n        \n        \n        \n\n"
    );
}

#[test]
fn attack_turns_a_run_of_several_discs() {
    let mut board = board_of("xooo \n     \n\n");
    assert!(board.attack(p(5, 1), Cell::Dark).is_ok());
    assert_eq!(board.to_string(), "xxxxx\n     \n\n");
    assert_eq!(board.count(Cell::Dark), 5);
    assert_eq!(board.count(Cell::Light), 0);
}

#[test]
fn attack_turns_along_all_eight_directions() {
    let mut board = board_of("x x x\n ooo \nxo ox\n ooo \nx x x\n\n");
    assert_eq!(board.generate_putable_list(Cell::Dark), vec![p(3, 3)]);
    assert!(board.attack(p(3, 3), Cell::Dark).is_ok());
    assert_eq!(board.to_string(), "x x x\n xxx \nxxxxx\n xxx \nx x x\n\n");
    assert_eq!(board.count(Cell::Dark), 17);
    assert_eq!(board.count(Cell::Light), 0);
    assert_eq!(board.count(Cell::Empty), 8);
}

#[test]
fn attack_skips_directions_without_a_bracket() {
    let mut board = board_of("x   x\n ooo \n o oo\n ooo \nx x  \n\n");
    assert!(board.attack(p(3, 3), Cell::Dark).is_ok());
    assert_eq!(board.to_string(), "x   x\n xox \n oxoo\n xxo \nx x  \n\n");
    assert_eq!(board.count(Cell::Dark), 9);
    assert_eq!(board.count(Cell::Light), 5);
}

#[test]
fn attack_counts_add_up() {
    let mut board = board_of("x x x\n ooo \nxo ox\n ooo \nx x x\n\n");
    let dark: usize = board.count(Cell::Dark);
    let light: usize = board.count(Cell::Light);
    let empty: usize = board.count(Cell::Empty);
    assert!(board.attack(p(3, 3), Cell::Dark).is_ok());
    let turned: usize = 8;
    assert_eq!(board.count(Cell::Dark), dark + 1 + turned);
    assert_eq!(board.count(Cell::Light), light - turned);
    assert_eq!(board.count(Cell::Empty), empty - 1);
}

#[test]
fn light_moves_as_dark_does() {
    let mut board = Othello::new(8, 8);
    assert!(board.attack(p(4, 3), Cell::Light).is_ok());
    assert_eq!(board.get(p(4, 3)), Some(Cell::Light));
    assert_eq!(board.get(p(4, 4)), Some(Cell::Light));
    assert_eq!(board.count(Cell::Light), 4);
    assert_eq!(board.count(Cell::Dark), 1);
}

#[test]
fn is_putable_says_what_attack_will_do() {
    let board = Othello::new(8, 8);
    for y in 1..=8isize {
        for x in 1..=8isize {
            for color in [Cell::Dark, Cell::Light, Cell::Empty] {
                let mut copy = board.clone();
                let made = copy.attack(p(x, y), color).is_ok();
                assert_eq!(board.is_putable(p(x, y), color), made);
            }
        }
    }
}

#[test]
fn is_putable_is_false_for_empty_anywhere() {
    let board = Othello::new(8, 8);
    assert!(!board.is_putable(p(5, 3), Cell::Empty));
    assert!(!board.is_putable(p(0, 0), Cell::Empty));
    assert!(!board.is_putable(p(100, -100), Cell::Empty));
}

#[test]
fn line_needs_a_rival_disc_next_to_the_square() {
    let board = board_of("x ox \n     \n\n");
    assert!(!board.is_putable_line(p(2, 1), Cell::Dark, LEFT));
    assert!(board.is_putable_line(p(2, 1), Cell::Dark, RIGHT));
    assert!(!board.is_putable_line(p(5, 1), Cell::Dark, LEFT));
    assert!(board.is_putable_line(p(5, 1), Cell::Light, LEFT));
    assert!(!board.is_putable_line(p(2, 1), Cell::Light, RIGHT));
    assert!(!board.is_putable_line(p(2, 1), Cell::Dark, DOWN));
}

#[test]
fn line_is_broken_by_a_gap_or_the_edge() {
    let board = board_of(" oo x\n oo  \n\n");
    assert!(!board.is_putable_line(p(1, 1), Cell::Dark, RIGHT));
    assert!(!board.is_putable_line(p(4, 1), Cell::Dark, LEFT));
    assert!(!board.is_putable_line(p(1, 2), Cell::Dark, RIGHT));
    assert!(!board.is_putable_line(p(4, 2), Cell::Dark, LEFT));
    assert!(!board.is_putable_line(p(1, 1), Cell::Dark, UP));
    assert!(!board.is_putable_line(p(5, 2), Cell::Dark, DOWN_RIGHT));
}

#[test]
fn line_runs_in_each_direction() {
    let board = board_of("x x x\n ooo \nxo ox\n ooo \nx x x\n\n");
    for d in [UP_LEFT, UP, UP_RIGHT, LEFT, RIGHT, DOWN_LEFT, DOWN, DOWN_RIGHT] {
        assert!(board.is_putable_line(p(3, 3), Cell::Dark, d));
        assert!(!board.is_putable_line(p(3, 3), Cell::Light, d));
    }
}

#[test]
fn line_may_start_off_the_board() {
    let board = board_of("ox\n  \n\n");
    assert!(board.is_putable_line(p(0, 1), Cell::Dark, RIGHT));
    assert!(!board.is_putable_line(p(0, 2), Cell::Dark, RIGHT));
    assert!(!board.is_putable_line(p(-1, 1), Cell::Dark, RIGHT));
}

#[test]
fn line_for_empty_ends_at_an_empty_square() {
    let board = board_of("xo \nxo \n\n");
    assert!(board.is_putable_line(p(0, 1), Cell::Empty, RIGHT));
    assert!(!board.is_putable_line(p(3, 1), Cell::Empty, LEFT));
}
