use boggle::board::{idx, Board, Piece, BOARD_DIMENSIONS};

#[test]
fn it_gets_the_right_index() {
    let expected = (0, 3);
    let actual = idx(3);
    assert_eq!(actual, expected);

    let expected = (1, 0);
    let actual = idx(4);
    assert_eq!(actual, expected);

    let expected = (1, 1);
    let actual = idx(5);
    assert_eq!(actual, expected);

    let expected = (1, 3);
    let actual = idx(7);
    assert_eq!(actual, expected);

    let expected = (3, 3);
    let actual = idx(15);
    assert_eq!(actual, expected);
}

#[test]
fn from_places_pieces_row_major() {
    let board = Board::from(&vec!['T', 'E', 'S', 'T', 'R']);
    assert_eq!(board.pieces.len(), 5);
    for (i, letter) in ['T', 'E', 'S', 'T', 'R'].iter().enumerate() {
        let piece = board.pieces[i];
        assert_eq!(piece.letter, *letter);
        assert_eq!(piece.row, i as i32 / BOARD_DIMENSIONS);
        assert_eq!(piece.col, i as i32 % BOARD_DIMENSIONS);
    }
}

#[test]
fn neighbor_is_irreflexive_and_symmetric() {
    let a = Piece::new('A', 0);
    let b = Piece::new('B', 5);
    assert!(!a.is_neighbor(&a));
    assert!(!b.is_neighbor(&b));
    assert_eq!(a.is_neighbor(&b), b.is_neighbor(&a));
    assert!(a.is_neighbor(&b));
}

#[test]
fn diagonal_pieces_are_neighbors() {
    // one row and one column apart
    let a = Piece::new('A', 0);
    let b = Piece::new('A', BOARD_DIMENSIONS + 1);
    assert!(a.is_neighbor(&b));
    assert!(b.is_neighbor(&a));
}

#[test]
fn pieces_two_rows_apart_are_never_neighbors() {
    let a = Piece::new('A', 0);
    for col in 0..BOARD_DIMENSIONS {
        let b = Piece::new('A', 2 * BOARD_DIMENSIONS + col);
        assert!(!a.is_neighbor(&b));
        assert!(!b.is_neighbor(&a));
    }
}

#[test]
fn first_instance_of_finds_the_first_match() {
    let board = Board::from(&vec!['T', 'E', 'S', 'T', 'R']);
    assert_eq!(board.first_instance_of('T'), Some(0));
    assert_eq!(board.first_instance_of('R'), Some(4));
    assert_eq!(board.first_instance_of('X'), None);
}

#[test]
fn get_all_instances_of_keeps_board_order() {
    let board = Board::from(&vec!['T', 'E', 'S', 'T', 'R']);
    let ts = board.get_all_instances_of('T');
    assert_eq!(ts.len(), 2);
    assert_eq!((ts[0].row, ts[0].col), (0, 0));
    assert_eq!((ts[1].row, ts[1].col), (0, 3));
    assert_eq!(board.get_all_instances_of('X').len(), 0);
}

#[test]
fn new_board_has_full_grid_of_uppercase_letters() {
    let board = Board::new(None);
    assert_eq!(
        board.pieces.len(),
        (BOARD_DIMENSIONS * BOARD_DIMENSIONS) as usize
    );
    for (i, piece) in board.pieces.iter().enumerate() {
        assert!(piece.letter.is_ascii_uppercase());
        assert_eq!(piece.row, i as i32 / BOARD_DIMENSIONS);
        assert_eq!(piece.col, i as i32 % BOARD_DIMENSIONS);
    }
}

#[test]
fn render_without_borders() {
    let board = Board::from(&vec!['T', 'E', 'S', 'T', 'R']);
    assert_eq!(board.render(), "\n T  E  S  T \n\n R \n");
}

#[test]
fn render_with_borders() {
    let mut board = Board::from(&vec!['T', 'E', 'S', 'T', 'R']);
    board.include_borders = true;
    assert_eq!(
        board.render(),
        "-------------\n| T | E | S | T |\n-------------\n| R \n"
    );
}
