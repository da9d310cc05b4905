use othello::cell::Cell;
use othello::othello::Othello;
use othello::point::Point;

#[test]
fn cell_glyphs() {
    assert_eq!(Cell::Empty.glyph(), ' ');
    assert_eq!(Cell::Dark.glyph(), 'x');
    assert_eq!(Cell::Light.glyph(), 'o');
    assert_eq!(Cell::Empty.to_string(), " ");
    assert_eq!(Cell::Dark.to_string(), "x");
    assert_eq!(Cell::Light.to_string(), "o");
}

#[test]
fn cell_from_glyph() {
    assert_eq!(Cell::from_glyph(' '), Some(Cell::Empty));
    assert_eq!(Cell::from_glyph('x'), Some(Cell::Dark));
    assert_eq!(Cell::from_glyph('o'), Some(Cell::Light));
    assert_eq!(Cell::from_glyph('X'), None);
    assert_eq!(Cell::from_glyph('\n'), None);
    assert_eq!(Cell::from_glyph('.'), None);
    for cell in [Cell::Empty, Cell::Dark, Cell::Light] {
        assert_eq!(Cell::from_glyph(cell.glyph()), Some(cell));
    }
}

#[test]
fn cell_opponent() {
    assert_eq!(Cell::Dark.opponent(), Cell::Light);
    assert_eq!(Cell::Light.opponent(), Cell::Dark);
    assert_eq!(Cell::Empty.opponent(), Cell::Empty);
}

#[test]
fn point_add_assign() {
    let mut point = Point { x: 3, y: 7 };
    point += Point { x: -1, y: 1 };
    assert_eq!(point, Point { x: 2, y: 8 });
    point += Point { x: 0, y: 0 };
    assert_eq!(point, Point { x: 2, y: 8 });
    point += Point { x: -5, y: -20 };
    assert_eq!(point, Point { x: -3, y: -12 });
}

#[test]
fn initial_board_as_text() {
    let board = Othello::new(8, 8);
    assert_eq!(
        board.to_string(),
        "        \n        \n        \n   xo   \n   ox   \n        \n        \n        \n\n"
    );
    assert_eq!(Othello::new(4, 2).to_string(), " xo \n ox \n\n");
}

#[test]
fn text_round_trip() {
    let mut board = Othello::new(8, 8);
    assert_eq!(Othello::from_text(&board.to_string()), Some(board.clone()));
    assert!(board.attack(Point { x: 5, y: 3 }, Cell::Dark).is_ok());
    assert!(board.attack(Point { x: 4, y: 3 }, Cell::Light).is_ok());
    let text = board.to_string();
    let read = Othello::from_text(&text);
    assert_eq!(read, Some(board));
    assert_eq!(read.map(|b| b.to_string()), Some(text));
}

#[test]
fn text_round_trip_of_odd_shapes() {
    for (width, height) in [(2usize, 2usize), (2, 5), (7, 3), (5, 5)] {
        let board = Othello::new(width, height);
        assert_eq!(Othello::from_text(&board.to_string()), Some(board));
    }
}

#[test]
fn from_text_reads_cells_in_place() {
    let board = match Othello::from_text("xo \n  o\n\n") {
        Some(board) => board,
        None => panic!("no board"),
    };
    assert_eq!(board.width(), 3);
    assert_eq!(board.height(), 2);
    assert_eq!(board.get(Point { x: 1, y: 1 }), Some(Cell::Dark));
    assert_eq!(board.get(Point { x: 2, y: 1 }), Some(Cell::Light));
    assert_eq!(board.get(Point { x: 3, y: 1 }), Some(Cell::Empty));
    assert_eq!(board.get(Point { x: 3, y: 2 }), Some(Cell::Light));
    assert_eq!(board.get(Point { x: 1, y: 2 }), Some(Cell::Empty));
}

#[test]
fn from_text_refuses_what_is_no_board() {
    assert_eq!(Othello::from_text(""), None);
    assert_eq!(Othello::from_text("\n"), None);
    assert_eq!(Othello::from_text("xo\nox\n"), None);
    assert_eq!(Othello::from_text("xo\nox"), None);
    assert_eq!(Othello::from_text("xo\nox\n\n\n"), None);
    assert_eq!(Othello::from_text("xo\nox\n\nxo\n"), None);
    assert_eq!(Othello::from_text("xo\n\nox\n\n"), None);
    assert_eq!(Othello::from_text("xo\no.\n\n"), None);
    assert_eq!(Othello::from_text("xo\nOX\n\n"), None);
    assert_eq!(Othello::from_text("xo\nox\r\n\n"), None);
}

#[test]
fn from_text_refuses_shapes_that_are_no_board() {
    assert_eq!(Othello::from_text("xo\n\n"), None);
    assert_eq!(Othello::from_text("x\no\n\n"), None);
    assert_eq!(Othello::from_text("xo\noxo\n\n"), None);
    assert_eq!(Othello::from_text("xox\nox\n\n"), None);
    assert_eq!(Othello::from_text("xo\nox\nx\n\n"), None);
}
