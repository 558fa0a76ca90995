use boggle::board::{Board, Piece, BOARD_DIMENSIONS};
use boggle::game::{is_valid_path, Game, Guess, Guesses, Player};

#[test]
fn guesses_add_guess_no_duplicates() {
    let mut my_guesses = Guesses::new();
    let my_board = Board::from(&vec!['T', 'E', 'S', 'T', 'R']);
    let my_string = String::from("test");
    my_guesses.add_guess(my_string, &my_board);
    let my_string = String::from("test");
    my_guesses.add_guess(my_string, &my_board);
    assert_eq!(my_guesses.invalid.len(), 0, "invalid is wrong length");
    assert_eq!(my_guesses.valid.len(), 1, "valid is wrong length");
}

#[test]
fn guess_calculate_score() {
    let score = Guess::calculate_score(0);
    assert_eq!(score, 0);
    let score = Guess::calculate_score(2);
    assert_eq!(score, 0);
    let score = Guess::calculate_score(3);
    assert_eq!(score, 1);
    let score = Guess::calculate_score(4);
    assert_eq!(score, 1);
    let score = Guess::calculate_score(10);
    assert_eq!(score, 7);
}

#[test]
fn guess_is_valid_letter_not_in_board() {
    let board = Board::from(&vec!['A', 'B', 'C', 'D', 'E']);
    let guess = Guess::new(String::from("testr"));
    assert_eq!(guess.is_valid(&board), false);
}

#[test]
fn is_valid_path_single_element_true() {
    // trivial case, but when collection.len() == 1, a valid path always exists
    let piece = Piece::new('A', 0);
    let collection = vec![vec![piece]];
    assert_eq!(
        is_valid_path(&collection, 0, None, &mut Vec::new()),
        true,
        "collection with 1 piece does not have valid path"
    );
}

#[test]
fn is_valid_path_non_adjacent_pieces() {
    let piece1 = Piece::new('A', 0);
    let piece2 = Piece::new('A', 2);
    let collection = vec![vec![piece1], vec![piece2]];
    assert_eq!(
        is_valid_path(&collection, 0, None, &mut Vec::new()),
        false,
        "collection with non-adjacent pieces has valid path"
    );
}

#[test]
fn is_valid_path_adjacent_pieces() {
    let piece1 = Piece::new('A', 0);
    let piece2 = Piece::new('A', 1);
    let collection = vec![vec![piece1], vec![piece2]];
    assert_eq!(
        is_valid_path(&collection, 0, None, &mut Vec::new()),
        true,
        "collection with adjacent pieces does not have valid path"
    );
}

#[test]
fn is_valid_path_same_pieces() {
    let piece1 = Piece::new('A', 0);
    let piece2 = Piece::new('A', 1);
    let collection = vec![
        vec![piece1],
        vec![piece2],
        vec![piece1], // should not be allowed to use same piece twice
    ];
    assert_eq!(
        is_valid_path(&collection, 0, None, &mut Vec::new()),
        false,
        "collection with duplicate pieces has valid path"
    );
}

#[test]
fn is_valid_path_last_piece_wrong() {
    let piece1 = Piece::new('A', 0);
    let piece2 = Piece::new('A', 1);
    let piece3 = Piece::new('A', 20);
    let collection = vec![vec![piece1], vec![piece2], vec![piece3]];
    assert_eq!(
        is_valid_path(&collection, 0, None, &mut Vec::new()),
        false,
        "collection with only partial path has full valid path"
    );
}

#[test]
fn is_valid_path_try_all_combinations() {
    // should be able to try all possible combinations if collection has lots of invalid paths
    let valid0 = Piece::new('A', 0);
    let valid5 = Piece::new('B', BOARD_DIMENSIONS);
    let valid6 = Piece::new('C', BOARD_DIMENSIONS * 2);
    let valid11 = Piece::new('D', BOARD_DIMENSIONS * 3);

    let invalid3 = Piece::new('E', BOARD_DIMENSIONS - 1);
    let invalid4 = Piece::new('F', BOARD_DIMENSIONS * 2 - 1);
    let invalid8 = Piece::new('G', BOARD_DIMENSIONS * 3 - 1);
    let invalid9 = Piece::new('H', BOARD_DIMENSIONS - 1);
    let invalid13 = Piece::new('I', BOARD_DIMENSIONS - 2);
    let invalid14 = Piece::new('J', BOARD_DIMENSIONS * 2 - 2);
    let invalid24 = Piece::new('K', BOARD_DIMENSIONS * 3 - 2);
    let invalid25 = Piece::new('L', BOARD_DIMENSIONS - 2);

    let collection = vec![
        vec![invalid3, invalid4, valid0],
        vec![invalid8, invalid9, valid5],
        vec![invalid13, invalid14, valid6],
        vec![invalid24, invalid25, valid11],
    ];
    assert_eq!(
        is_valid_path(&collection, 0, None, &mut Vec::new()),
        true,
        "collection with complicated path is valid"
    );
}

#[test]
fn guess_normalizes_word_to_uppercase() {
    let guess = Guess::new(String::from("teSt"));
    assert_eq!(guess.word, "TEST");
    assert_eq!(guess.score, 1);
}

#[test]
fn resubmitting_valid_word_keeps_total_score() {
    let mut guesses = Guesses::new();
    let board = Board::from(&vec!['T', 'E', 'S', 'T', 'R']);
    guesses.add_guess(String::from("test"), &board);
    assert_eq!(guesses.valid.len(), 1);
    assert_eq!(guesses.total_score(), 1);
    guesses.add_guess(String::from("test"), &board);
    assert_eq!(guesses.valid.len(), 1);
    assert_eq!(guesses.total_score(), 1);
}

#[test]
fn word_accepted_and_overlong_word_rejected() {
    // "test" walks T(0,0) E(0,1) S(0,2) T(0,3); "tests" would need a third
    // distinct, adjacent S-T tail that the board cannot supply
    let mut guesses = Guesses::new();
    let board = Board::from(&vec!['T', 'E', 'S', 'T', 'R']);
    guesses.add_guess(String::from("test"), &board);
    guesses.add_guess(String::from("tests"), &board);
    assert_eq!(guesses.valid.len(), 1);
    assert_eq!(guesses.valid[0].word, "TEST");
    assert_eq!(guesses.invalid.len(), 1);
    assert_eq!(guesses.invalid[0].word, "TESTS");
}

#[test]
fn scattered_letters_land_in_invalid_bucket() {
    // every letter of "ab" is on the board, but its only A and only B sit at
    // opposite corners with no adjacent chain between them
    let letters = vec![
        'A', 'C', 'C', 'C', 'C', 'C', 'C', 'C', 'C', 'C', 'C', 'C', 'C', 'C', 'C', 'B',
    ];
    let board = Board::from(&letters);
    let mut guesses = Guesses::new();
    guesses.add_guess(String::from("ab"), &board);
    assert_eq!(guesses.valid.len(), 0);
    assert_eq!(guesses.invalid.len(), 1);
    assert_eq!(guesses.invalid[0].word, "AB");
}

#[test]
fn dictionary_splits_valid_and_unlisted_words() {
    let mut board = Board::from(&vec!['T', 'E', 'S', 'T', 'R']);
    board.dictionary = Some(vec![String::from("TEST")]);
    let mut guesses = Guesses::new();
    // both words have a path; only "test" is in the dictionary
    guesses.add_guess(String::from("test"), &board);
    guesses.add_guess(String::from("tset"), &board);
    assert_eq!(guesses.valid.len(), 1);
    assert_eq!(guesses.valid[0].word, "TEST");
    assert_eq!(guesses.not_in_dict.len(), 1);
    assert_eq!(guesses.not_in_dict[0].word, "TSET");
    assert_eq!(guesses.invalid.len(), 0);
}

#[test]
fn summary_reports_buckets_and_total() {
    let mut guesses = Guesses::new();
    let board = Board::from(&vec!['T', 'E', 'S', 'T', 'R']);
    guesses.add_guess(String::from("test"), &board);
    guesses.add_guess(String::from("ab"), &board);
    assert_eq!(
        guesses.summary(),
        "\nValid words\n=============\nTEST\n\nInvalid words\n=============\nAB\n\nNot in dictionary\n=============\n\nTotal Score: 1"
    );
}

#[test]
fn empty_summary_reports_zero_total() {
    let guesses = Guesses::new();
    assert_eq!(
        guesses.summary(),
        "\nValid words\n=============\n\nInvalid words\n=============\n\nNot in dictionary\n=============\n\nTotal Score: 0"
    );
}

#[test]
fn game_routes_guesses_to_its_ledger() {
    let mut game = Game {
        board: Board::from(&vec!['T', 'E', 'S', 'T', 'R']),
        player: Player::new(String::from("Ada")),
        guesses: Guesses::new(),
    };
    game.add_guess(String::from("test"));
    assert_eq!(game.guesses.valid.len(), 1);
    assert_eq!(game.player.name, "Ada");
}

#[test]
fn single_letter_word_valid_iff_letter_present() {
    let board = Board::from(&vec!['T', 'E', 'S', 'T', 'R']);
    assert!(Guess::new(String::from("e")).is_valid(&board));
    assert!(!Guess::new(String::from("x")).is_valid(&board));
}

#[test]
fn empty_word_is_not_valid() {
    let board = Board::from(&vec!['T', 'E', 'S', 'T', 'R']);
    assert!(!Guess::new(String::new()).is_valid(&board));
}
