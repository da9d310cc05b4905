use othello::cell::Cell;
use othello::game::{attack_first, next_mover, play_turn, Game, Turn};
use othello::othello::{Othello, OthelloError};
use othello::point::Point;

fn board_of(text: &str) -> Othello {
    match Othello::from_text(text) {
        Some(board) => board,
        None => panic!("no board: {:?}", text),
    }
}

#[test]
fn next_mover_is_the_colour_to_move_where_it_can() {
    let board = Othello::new(8, 8);
    let found = next_mover(&board, Cell::Dark);
    assert_eq!(
        found,
        Some((Cell::Dark, board.generate_putable_list(Cell::Dark)))
    );
    let found = next_mover(&board, Cell::Light);
    assert_eq!(
        found,
        Some((Cell::Light, board.generate_putable_list(Cell::Light)))
    );
}

#[test]
fn next_mover_passes_to_the_opponent() {
    let board = board_of("xo \n   \n\n");
    assert_eq!(
        next_mover(&board, Cell::Light),
        Some((Cell::Dark, vec![Point { x: 3, y: 1 }]))
    );
    assert_eq!(
        next_mover(&board, Cell::Dark),
        Some((Cell::Dark, vec![Point { x: 3, y: 1 }]))
    );
}

#[test]
fn next_mover_is_none_where_nobody_can_move() {
    let board = board_of("xx \n   \n\n");
    assert_eq!(next_mover(&board, Cell::Dark), None);
    assert_eq!(next_mover(&board, Cell::Light), None);
    assert_eq!(next_mover(&Othello::new(8, 8), Cell::Empty), None);
}

#[test]
fn attack_first_takes_the_first_choice() {
    let mut board = Othello::new(8, 8);
    let choices = vec![Point { x: 6, y: 4 }, Point { x: 5, y: 3 }];
    assert_eq!(
        attack_first(&mut board, Cell::Dark, &choices),
        Ok(Point { x: 6, y: 4 })
    );
    assert_eq!(board.get(Point { x: 6, y: 4 }), Some(Cell::Dark));
    assert_eq!(board.get(Point { x: 5, y: 4 }), Some(Cell::Dark));
    assert_eq!(board.get(Point { x: 5, y: 3 }), Some(Cell::Empty));
}

#[test]
fn attack_first_refuses_as_attack_does() {
    let mut board = Othello::new(8, 8);
    let before = board.clone();
    let choices = vec![Point { x: 1, y: 1 }, Point { x: 5, y: 3 }];
    assert_eq!(
        attack_first(&mut board, Cell::Dark, &choices),
        Err(OthelloError::DoNotPut)
    );
    assert_eq!(
        attack_first(&mut board, Cell::Empty, &choices),
        Err(OthelloError::InvalidColor)
    );
    assert_eq!(board, before);
}

#[test]
fn play_turn_makes_a_listed_move() {
    let start = Othello::new(8, 8);
    let listed = start.generate_putable_list(Cell::Dark);
    let mut board = start.clone();
    match play_turn(&mut board, Cell::Dark) {
        Turn::Moved { color, point } => {
            assert_eq!(color, Cell::Dark);
            assert!(listed.contains(&point));
            let mut want = start.clone();
            assert!(want.attack(point, Cell::Dark).is_ok());
            assert_eq!(board, want);
        }
        Turn::Over => panic!("no move made"),
    }
}

#[test]
fn play_turn_does_not_always_take_the_first_move() {
    let start = Othello::new(8, 8);
    let first = start.generate_putable_list(Cell::Dark)[0];
    let mut others: usize = 0;
    for _ in 0..400 {
        let mut board = start.clone();
        match play_turn(&mut board, Cell::Dark) {
            Turn::Moved { point, .. } => {
                if point != first {
                    others += 1;
                }
            }
            Turn::Over => panic!("no move made"),
        }
    }
    assert!(others > 0);
}

#[test]
fn play_turn_passes_and_ends() {
    let mut board = board_of("xo \n   \n\n");
    assert_eq!(
        play_turn(&mut board, Cell::Light),
        Turn::Moved { color: Cell::Dark, point: Point { x: 3, y: 1 } }
    );
    assert_eq!(board.to_string(), "xxx\n   \n\n");
    let before = board.clone();
    assert_eq!(play_turn(&mut board, Cell::Light), Turn::Over);
    assert_eq!(play_turn(&mut board, Cell::Dark), Turn::Over);
    assert_eq!(board, before);
}

#[test]
fn game_counts_discs_and_swaps_colours() {
    let mut game = Game::new(Othello::new(8, 8), Cell::Dark);
    assert_eq!(game.discs(), 4);
    assert_eq!(game.color(), Cell::Dark);
    assert!(!game.cap_reached());
    assert!(matches!(game.step(), Turn::Moved { color: Cell::Dark, .. }));
    assert_eq!(game.discs(), 5);
    assert_eq!(game.color(), Cell::Light);
    assert_eq!(game.board().count(Cell::Empty), 59);
    assert!(matches!(game.step(), Turn::Moved { color: Cell::Light, .. }));
    assert_eq!(game.discs(), 6);
    assert_eq!(game.color(), Cell::Dark);
}

#[test]
fn game_ends_within_as_many_turns_as_there_are_empty_squares() {
    for (width, height) in [(8usize, 8usize), (4, 4), (6, 5), (2, 2), (3, 7)] {
        let mut game = Game::new(Othello::new(width, height), Cell::Dark);
        let mut turns: usize = 0;
        loop {
            let empty: usize = game.board().count(Cell::Empty);
            match game.step() {
                Turn::Over => break,
                Turn::Moved { .. } => {
                    turns += 1;
                    assert_eq!(game.board().count(Cell::Empty), empty - 1);
                    assert!(!game.cap_reached());
                }
            }
            assert!(turns <= width * height - 4);
        }
        assert_eq!(game.discs(), 4 + turns);
        assert_eq!(game.board().generate_putable_list(Cell::Dark), vec![]);
        assert_eq!(game.board().generate_putable_list(Cell::Light), vec![]);
        assert_eq!(game.step(), Turn::Over);
    }
}
