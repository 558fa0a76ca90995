//! The square letter grid: cells with a letter and zero-based row/column
//! coordinates, 8-directional adjacency between cells, letter lookup, random
//! and literal board construction, and textual rendering.

use rand::RngExt;
use vstd::prelude::*;
use vstd::arithmetic::div_mod::lemma_fundamental_div_mod;
use crate::text::push_char;

verus! {

/// Side length of the square board.
pub const BOARD_DIMENSIONS: i32 = 4;

// A cell of the board: a letter at a fixed, zero-based (row, col) position.
#[derive(Debug, Clone, Copy, PartialEq, Eq, Structural)]
pub struct Piece {
    pub letter: char,
    pub row: i32,
    pub col: i32,
}

/// 8-directional adjacency: two pieces at distinct positions whose rows and
/// columns each differ by at most one (Chebyshev distance 1).
pub open spec fn spec_adjacent(a: Piece, b: Piece) -> bool {
    &&& !(a.row == b.row && a.col == b.col)
    &&& -1 <= a.row - b.row <= 1
    &&& -1 <= a.col - b.col <= 1
}

/// A piece is never adjacent to itself.
pub proof fn lemma_adjacent_irreflexive(a: Piece)
    ensures
        !spec_adjacent(a, a),
{
}

/// Adjacency is symmetric.
pub proof fn lemma_adjacent_symmetric(a: Piece, b: Piece)
    ensures
        spec_adjacent(a, b) == spec_adjacent(b, a),
{
}

/// Two pieces exactly one row and one column apart (diagonal neighbors) are
/// adjacent.
pub proof fn lemma_diagonal_adjacent(a: Piece, b: Piece)
    requires
        a.row - b.row == 1 || b.row - a.row == 1,
        a.col - b.col == 1 || b.col - a.col == 1,
    ensures
        spec_adjacent(a, b),
{
}

/// Two pieces two or more rows apart are never adjacent, whatever their
/// columns.
pub proof fn lemma_far_rows_not_adjacent(a: Piece, b: Piece)
    requires
        a.row - b.row >= 2 || b.row - a.row >= 2,
    ensures
        !spec_adjacent(a, b),
{
}

/// The (row, col) position implied by a row-major board index.
pub fn idx(i: i32) -> (rc: (i32, i32))
    requires
        0 <= i,
    ensures
        rc.0 == i as int / BOARD_DIMENSIONS as int,
        rc.1 == i as int % BOARD_DIMENSIONS as int,
{
    (i / BOARD_DIMENSIONS, i % BOARD_DIMENSIONS)
}

impl Piece {
    /// Place a letter at the position implied by a row-major board index.
    pub fn new(letter: char, index: i32) -> (p: Piece)
        requires
            0 <= index,
        ensures
            p.letter == letter,
            p.row == index as int / BOARD_DIMENSIONS as int,
            p.col == index as int % BOARD_DIMENSIONS as int,
    {
        let (row, col) = idx(index);
        Piece { letter, row, col }
    }

    /// Decide 8-directional adjacency with another piece.
    pub fn is_neighbor(&self, p: &Piece) -> (r: bool)
        ensures
            r == spec_adjacent(*self, *p),
    {
        // same piece is not neighbor
        if self.row == p.row && self.col == p.col {
            return false;
        }
        // if no more than 1 row and column away
        let dr: i64 = self.row as i64 - p.row as i64;
        let dc: i64 = self.col as i64 - p.col as i64;
        -1 <= dr && dr <= 1 && -1 <= dc && dc <= 1
    }
}

// The thread-local random generator of the rand crate, opaque to the
// verifier; it only carries draws between the wrappers below.
#[verifier::external_type_specification]
#[verifier::external_body]
pub struct ExThreadRng(rand::rngs::ThreadRng);

/// Relies on rand::rng: a handle to the thread-local random generator.
#[verifier::external_body]
fn fresh_rng() -> rand::rngs::ThreadRng {
    rand::rng()
}

/// Relies on rand::RngExt::random: a bool drawn from the thread-local
/// generator; nothing can be promised of its value.
#[verifier::external_body]
fn rand_coin(rng: &mut rand::rngs::ThreadRng) -> bool {
    rng.random()
}

/// Relies on rand::RngExt::random_range: a value uniform in [0, n). It panics
/// only on an empty range, which the precondition rules out.
#[verifier::external_body]
fn rand_below(rng: &mut rand::rngs::ThreadRng, n: usize) -> (r: usize)
    requires
        n > 0,
    ensures
        r < n,
{
    rng.random_range(0..n)
}

/// Is the letter one of the vowels a random board draws from?
pub open spec fn is_vowel(c: char) -> bool {
    c == 'A' || c == 'E' || c == 'I' || c == 'O' || c == 'U'
}

/// Is the letter one of the rare, hard-to-play consonants?
pub open spec fn is_unfriendly_consonant(c: char) -> bool {
    c == 'J' || c == 'K' || c == 'Q' || c == 'V' || c == 'X' || c == 'W' || c == 'Y' || c == 'Z'
}

/// Is the letter one of the common, easy-to-play consonants?
pub open spec fn is_friendly_consonant(c: char) -> bool {
    ||| c == 'B' || c == 'C' || c == 'D' || c == 'F' || c == 'G' || c == 'H' || c == 'L'
    ||| c == 'M' || c == 'N' || c == 'P' || c == 'R' || c == 'S' || c == 'T'
}

/// The three letter sets together cover exactly the uppercase alphabet.
pub open spec fn is_board_letter(c: char) -> bool {
    is_vowel(c) || is_unfriendly_consonant(c) || is_friendly_consonant(c)
}

fn vowel_at(k: usize) -> (c: char)
    requires
        k < 5,
    ensures
        is_vowel(c),
{
    match k {
        0 => 'A',
        1 => 'E',
        2 => 'I',
        3 => 'O',
        _ => 'U',
    }
}

fn unfriendly_consonant_at(k: usize) -> (c: char)
    requires
        k < 8,
    ensures
        is_unfriendly_consonant(c),
{
    match k {
        0 => 'J',
        1 => 'K',
        2 => 'Q',
        3 => 'V',
        4 => 'X',
        5 => 'W',
        6 => 'Y',
        _ => 'Z',
    }
}

fn friendly_consonant_at(k: usize) -> (c: char)
    requires
        k < 13,
    ensures
        is_friendly_consonant(c),
{
    match k {
        0 => 'B',
        1 => 'C',
        2 => 'D',
        3 => 'F',
        4 => 'G',
        5 => 'H',
        6 => 'L',
        7 => 'M',
        8 => 'N',
        9 => 'P',
        10 => 'R',
        11 => 'S',
        _ => 'T',
    }
}

// The playing board: its pieces in row-major order, a rendering flag, and an
// optional dictionary of accepted words.
#[derive(Debug)]
pub struct Board {
    pub pieces: Vec<Piece>,
    pub include_borders: bool,
    pub dictionary: Option<Vec<String>>,
}

impl Board {
    /// Every piece sits at the (row, col) position implied by its row-major
    /// index.
    pub open spec fn wf(&self) -> bool {
        forall|i: int|
            0 <= i < self.pieces@.len() ==> {
                &&& (#[trigger] self.pieces@[i]).row == i / BOARD_DIMENSIONS as int
                &&& self.pieces@[i].col == i % BOARD_DIMENSIONS as int
            }
    }

    /// Build a fresh board of N x N pieces. Each piece's letter is drawn
    /// independently: a vowel half of the time, a rare consonant a tenth of
    /// the remaining half, a common consonant otherwise.
    pub fn new(dictionary: Option<Vec<String>>) -> (b: Board)
        ensures
            b.wf(),
            b.pieces@.len() == BOARD_DIMENSIONS as int * BOARD_DIMENSIONS as int,
            forall|i: int|
                0 <= i < b.pieces@.len() ==> is_board_letter(
                    (#[trigger] b.pieces@[i]).letter,
                ),
            b.include_borders == false,
            b.dictionary == dictionary,
    {
        let mut pieces: Vec<Piece> = Vec::new();

        // generate letters
        // choose vowels ~50% of the time
        // sprinkle some unfriendly consonants with the friendly consonants
        let mut rng = fresh_rng();
        let total: i32 = BOARD_DIMENSIONS * BOARD_DIMENSIONS;
        let mut i: i32 = 0;
        while i < total
            invariant
                total == BOARD_DIMENSIONS as int * BOARD_DIMENSIONS as int,
                0 <= i <= total,
                pieces@.len() == i as int,
                forall|k: int|
                    0 <= k < i ==> {
                        &&& is_board_letter((#[trigger] pieces@[k]).letter)
                        &&& pieces@[k].row == k / BOARD_DIMENSIONS as int
                        &&& pieces@[k].col == k % BOARD_DIMENSIONS as int
                    },
            decreases total - i,
        {
            let letter = if rand_coin(&mut rng) {
                vowel_at(rand_below(&mut rng, 5))
            } else if rand_below(&mut rng, 10) < 1 {
                unfriendly_consonant_at(rand_below(&mut rng, 8))
            } else {
                friendly_consonant_at(rand_below(&mut rng, 13))
            };
            pieces.push(Piece::new(letter, i));
            i += 1;
        }

        Board { pieces, include_borders: false, dictionary }
    }

    /// Build a board from a literal sequence of letters, one per cell in
    /// row-major order. Letters are taken as given: callers must pre-normalize
    /// to uppercase.
    pub fn from(letters: &Vec<char>) -> (b: Board)
        requires
            letters@.len() <= i32::MAX as int,
        ensures
            b.wf(),
            b.pieces@.len() == letters@.len(),
            forall|i: int|
                0 <= i < letters@.len() ==> (#[trigger] b.pieces@[i]).letter == letters@[i],
            b.include_borders == false,
            b.dictionary is None,
    {
        let mut pieces: Vec<Piece> = Vec::new();
        let n = letters.len();
        let mut i: usize = 0;
        while i < n
            invariant
                n == letters@.len() <= i32::MAX as int,
                i <= n,
                pieces@.len() == i,
                forall|k: int|
                    0 <= k < i ==> {
                        &&& (#[trigger] pieces@[k]).letter == letters@[k]
                        &&& pieces@[k].row == k / BOARD_DIMENSIONS as int
                        &&& pieces@[k].col == k % BOARD_DIMENSIONS as int
                    },
            decreases n - i,
        {
            pieces.push(Piece::new(letters[i], i as i32));
            i += 1;
        }
        Board { pieces, include_borders: false, dictionary: None }
    }

    /// The position of the first piece bearing the letter, scanning in board
    /// order; `None` exactly when the letter is absent from the board.
    pub fn first_instance_of(&self, letter: char) -> (r: Option<usize>)
        ensures
            match r {
                Some(i) => {
                    &&& i < self.pieces@.len()
                    &&& self.pieces@[i as int].letter == letter
                    &&& forall|j: int| 0 <= j < i ==> (#[trigger] self.pieces@[j]).letter != letter
                },
                None => forall|j: int|
                    0 <= j < self.pieces@.len() ==> (#[trigger] self.pieces@[j]).letter != letter,
            },
    {
        let n = self.pieces.len();
        let mut i: usize = 0;
        while i < n
            invariant
                n == self.pieces@.len(),
                i <= n,
                forall|j: int| 0 <= j < i ==> (#[trigger] self.pieces@[j]).letter != letter,
            decreases n - i,
        {
            if self.pieces[i].letter == letter {
                return Some(i);
            }
            i += 1;
        }
        None
    }

    /// Render the board as text: each piece's letter with a one-space margin,
    /// rows separated by blank lines, the whole framed by dash borders when
    /// the flag is set.
    pub fn render(&self) -> (r: String)
        requires
            self.wf(),
        ensures
            r@ == spec_render(*self),
    {
        let mut out = String::new();
        let border_length: usize = (BOARD_DIMENSIONS * BOARD_DIMENSIONS - BOARD_DIMENSIONS
            + 1) as usize;
        if self.include_borders {
            // write top border
            push_dashes(&mut out, border_length);
        }
        push_char(&mut out, '\n');
        let ghost head = (if self.include_borders {
            dashes(border_len())
        } else {
            Seq::<char>::empty()
        }) + seq!['\n'];
        proof {
            assert(out@ =~= head + spec_render_pieces(self.pieces@.take(0), self.include_borders));
        }
        let n = self.pieces.len();
        let mut i: usize = 0;
        while i < n
            invariant
                self.wf(),
                n == self.pieces@.len(),
                i <= n,
                border_length == border_len(),
                head == (if self.include_borders {
                    dashes(border_len())
                } else {
                    Seq::<char>::empty()
                }) + seq!['\n'],
                out@ == head + spec_render_pieces(self.pieces@.take(i as int), self.include_borders),
            decreases n - i,
        {
            let p = self.pieces[i];
            // piece includes left border and padding
            if self.include_borders {
                push_char(&mut out, '|');
            }
            push_char(&mut out, ' ');
            push_char(&mut out, p.letter);
            push_char(&mut out, ' ');
            // write right border and break after the last column of a row
            if p.col != 0 && p.col % (BOARD_DIMENSIONS - 1) == 0 {
                if self.include_borders {
                    push_char(&mut out, '|');
                    push_char(&mut out, '\n');
                    push_dashes(&mut out, border_length);
                    push_char(&mut out, '\n');
                } else {
                    push_char(&mut out, '\n');
                    push_char(&mut out, '\n');
                }
            }
            proof {
                assert(self.pieces@.take(i + 1).drop_last() =~= self.pieces@.take(i as int));
                assert(self.pieces@.take(i + 1).last() == p);
                assert(out@ =~= head + spec_render_pieces(
                    self.pieces@.take(i + 1),
                    self.include_borders,
                ));
            }
            i += 1;
        }
        push_char(&mut out, '\n');
        proof {
            assert(self.pieces@.take(n as int) =~= self.pieces@);
            assert(out@ =~= spec_render(*self));
        }
        out
    }

    /// All pieces bearing the letter, in board order.
    pub fn get_all_instances_of(&self, letter: char) -> (r: Vec<Piece>)
        ensures
            r@ == self.pieces@.filter(|p: Piece| p.letter == letter),
    {
        let ghost pred = |p: Piece| p.letter == letter;
        let mut out: Vec<Piece> = Vec::new();
        let n = self.pieces.len();
        let mut i: usize = 0;
        proof {
            assert(self.pieces@.take(0int) =~= Seq::<Piece>::empty());
            reveal(Seq::filter);
        }
        while i < n
            invariant
                n == self.pieces@.len(),
                i <= n,
                out@ == self.pieces@.take(i as int).filter(pred),
                pred == (|p: Piece| p.letter == letter),
            decreases n - i,
        {
            proof {
                let pre = self.pieces@.take(i as int);
                let post = self.pieces@.take(i + 1);
                assert(post.drop_last() =~= pre);
                assert(post.last() == self.pieces@[i as int]);
                reveal(Seq::filter);
            }
            if self.pieces[i].letter == letter {
                out.push(self.pieces[i]);
            }
            i += 1;
        }
        proof {
            assert(self.pieces@.take(n as int) =~= self.pieces@);
        }
        out
    }
}

/// Length of the border line drawn above and below each row when borders are
/// on: the width of one rendered row of cells, plus the closing bar.
pub open spec fn border_len() -> int {
    BOARD_DIMENSIONS as int * BOARD_DIMENSIONS as int - BOARD_DIMENSIONS as int + 1
}

/// A run of dashes.
pub open spec fn dashes(n: int) -> Seq<char> {
    Seq::new(n as nat, |i: int| '-')
}

/// Does a row break follow this piece? The last column of a row triggers it.
pub open spec fn spec_row_break(p: Piece) -> bool {
    p.col != 0 && p.col as int % (BOARD_DIMENSIONS as int - 1) == 0
}

/// The text one piece contributes to the rendering: the letter with one space
/// of margin on each side, a leading bar when borders are on, and the row
/// break after the last column of a row.
pub open spec fn piece_text(p: Piece, borders: bool) -> Seq<char> {
    let cell = if borders {
        seq!['|', ' ', p.letter, ' ']
    } else {
        seq![' ', p.letter, ' ']
    };
    let brk = if spec_row_break(p) {
        if borders {
            seq!['|', '\n'] + dashes(border_len()) + seq!['\n']
        } else {
            seq!['\n', '\n']
        }
    } else {
        Seq::<char>::empty()
    };
    cell + brk
}

/// The pieces' contributions, in board order.
pub open spec fn spec_render_pieces(s: Seq<Piece>, borders: bool) -> Seq<char>
    decreases s.len(),
{
    if s.len() == 0 {
        Seq::<char>::empty()
    } else {
        spec_render_pieces(s.drop_last(), borders) + piece_text(s.last(), borders)
    }
}

/// The whole rendered board: an optional top border, a blank line, the
/// pieces row by row, and a final line break.
pub open spec fn spec_render(b: Board) -> Seq<char> {
    let head = if b.include_borders {
        dashes(border_len())
    } else {
        Seq::<char>::empty()
    };
    head + seq!['\n'] + spec_render_pieces(b.pieces@, b.include_borders) + seq!['\n']
}

fn push_dashes(s: &mut String, n: usize)
    ensures
        final(s)@ == old(s)@ + dashes(n as int),
{
    let mut i: usize = 0;
    proof {
        assert(s@ =~= s@ + dashes(0));
    }
    while i < n
        invariant
            i <= n,
            s@ == old(s)@ + dashes(i as int),
        decreases n - i,
    {
        push_char(s, '-');
        proof {
            assert(old(s)@ + dashes(i + 1) =~= (old(s)@ + dashes(i as int)).push('-'));
        }
        i += 1;
    }
}

/// For a well-formed board, decomposing a piece's index into row and column
/// and recomposing them gives the index back: the cell stored at `i` really
/// occupies row `i / N` and column `i % N`.
pub proof fn lemma_index_round_trip(b: &Board, i: int)
    requires
        b.wf(),
        0 <= i < b.pieces@.len(),
    ensures
        b.pieces@[i].row * BOARD_DIMENSIONS as int + b.pieces@[i].col == i,
{
    lemma_fundamental_div_mod(i, BOARD_DIMENSIONS as int);
}

} // verus!
