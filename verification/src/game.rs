//! Guess scoring and classification: the path search over per-letter
//! candidate sets, the scored guess, and the ledger of submitted guesses.

use vstd::prelude::*;
use vstd::seq_lib::lemma_seq_contains_after_push;
use crate::board::{Board, Piece, spec_adjacent};
use crate::text::{decimal_string, push_char, spec_decimal, to_upper, upper_seq};

verus! {

/// The candidate sets as plain sequences: one sequence of pieces per word
/// position.
pub open spec fn views_of(collection: Seq<Vec<Piece>>) -> Seq<Seq<Piece>> {
    Seq::new(collection.len(), |i: int| collection[i]@)
}

/// `e` completes a partial path: it supplies one piece per remaining
/// candidate set from `index` on, drawn from the matching set, avoiding the
/// pieces already `used` and each other, with consecutive pieces adjacent and
/// the first adjacent to the previously chosen piece, if any.
pub open spec fn extension_ok(
    collection: Seq<Seq<Piece>>,
    index: int,
    prev: Option<Piece>,
    used: Seq<Piece>,
    e: Seq<Piece>,
) -> bool {
    &&& e.len() == collection.len() - index
    &&& forall|j: int| 0 <= j < e.len() ==> collection[index + j].contains(#[trigger] e[j])
    &&& forall|j: int| 0 <= j < e.len() ==> !used.contains(#[trigger] e[j])
    &&& forall|j: int, k: int| 0 <= j < k < e.len() ==> e[j] != e[k]
    &&& match prev {
        Some(q) => e.len() > 0 ==> spec_adjacent(q, e[0]),
        None => true,
    }
    &&& forall|j: int| 1 <= j < e.len() ==> spec_adjacent(e[j - 1], #[trigger] e[j])
}

/// Some completion of the partial path exists.
pub open spec fn has_extension(
    collection: Seq<Seq<Piece>>,
    index: int,
    prev: Option<Piece>,
    used: Seq<Piece>,
) -> bool {
    exists|e: Seq<Piece>| extension_ok(collection, index, prev, used, e)
}

/// A qualifying piece `p` at `index` followed by a completion from
/// `index + 1` forms a completion from `index`.
#[verifier::rlimit(30)]
proof fn lemma_extension_step(
    collection: Seq<Seq<Piece>>,
    index: int,
    prev: Option<Piece>,
    used: Seq<Piece>,
    p: Piece,
    rest: Seq<Piece>,
)
    requires
        0 <= index < collection.len(),
        collection[index].contains(p),
        !used.contains(p),
        match prev {
            Some(q) => spec_adjacent(q, p),
            None => true,
        },
        extension_ok(collection, index + 1, Some(p), used.push(p), rest),
    ensures
        extension_ok(collection, index, prev, used, seq![p] + rest),
{
    broadcast use lemma_seq_contains_after_push;

    let e = seq![p] + rest;
    assert(e[0] == p);
    assert(used.push(p).contains(p));
    assert forall|j: int| 1 <= j < e.len() implies e[j] == rest[j - 1] by {}
    assert forall|j: int| 0 <= j < e.len() implies collection[index + j].contains(#[trigger] e[j]) by {
        if j > 0 {
            assert(collection[(index + 1) + (j - 1)].contains(rest[j - 1]));
        }
    }
    assert forall|j: int| 0 <= j < e.len() implies !used.contains(#[trigger] e[j]) by {
        if j > 0 {
            assert(!used.push(p).contains(rest[j - 1]));
        }
    }
    assert forall|j: int, k: int| 0 <= j < k < e.len() implies e[j] != e[k] by {
        if j == 0 {
            assert(!used.push(p).contains(rest[k - 1]));
        }
    }
    assert forall|j: int| 1 <= j < e.len() implies spec_adjacent(e[j - 1], #[trigger] e[j]) by {
        if j == 1 {
            assert(rest.len() > 0);
            assert(spec_adjacent(p, rest[0]));
        } else {
            assert(spec_adjacent(rest[j - 2], rest[j - 1]));
        }
    }
}

/// Conversely, a completion from `index` that starts with `p` yields a
/// completion from `index + 1` that treats `p` as chosen.
proof fn lemma_extension_unstep(
    collection: Seq<Seq<Piece>>,
    index: int,
    prev: Option<Piece>,
    used: Seq<Piece>,
    e: Seq<Piece>,
)
    requires
        0 <= index < collection.len(),
        extension_ok(collection, index, prev, used, e),
    ensures
        e.len() > 0,
        collection[index].contains(e[0]),
        !used.contains(e[0]),
        match prev {
            Some(q) => spec_adjacent(q, e[0]),
            None => true,
        },
        extension_ok(collection, index + 1, Some(e[0]), used.push(e[0]), e.subrange(1, e.len() as int)),
{
    broadcast use lemma_seq_contains_after_push;

    let p = e[0];
    let rest = e.subrange(1, e.len() as int);
    assert forall|j: int| 0 <= j < rest.len() implies rest[j] == e[j + 1] by {}
    assert forall|j: int| 0 <= j < rest.len() implies collection[(index + 1) + j].contains(
        #[trigger] rest[j],
    ) by {
        assert(collection[index + (j + 1)].contains(e[j + 1]));
    }
    assert forall|j: int| 0 <= j < rest.len() implies !used.push(p).contains(#[trigger] rest[j]) by {
        assert(!used.contains(e[j + 1]));
        assert(e[0] != e[j + 1]);
    }
    assert forall|j: int| 1 <= j < rest.len() implies spec_adjacent(rest[j - 1], #[trigger] rest[j]) by {
        assert(spec_adjacent(e[j], e[j + 1]));
    }
    if rest.len() > 0 {
        assert(spec_adjacent(e[0], e[1]));
    }
}

/// Membership in one more element of a prefix: the new element is either in
/// the shorter prefix or is the element at `j` itself.
proof fn lemma_take_contains_succ(s: Seq<Piece>, j: int, y: Piece)
    requires
        0 <= j < s.len(),
    ensures
        s.take(j + 1).contains(y) <==> s.take(j).contains(y) || y == s[j],
{
    if s.take(j + 1).contains(y) {
        let i = choose|i: int| 0 <= i < j + 1 && #[trigger] s.take(j + 1)[i] == y;
        if i < j {
            assert(s.take(j)[i] == y);
        }
    }
    if s.take(j).contains(y) {
        let i = choose|i: int| 0 <= i < j && #[trigger] s.take(j)[i] == y;
        assert(s.take(j + 1)[i] == y);
    }
    if y == s[j] {
        assert(s.take(j + 1)[j] == y);
    }
}

/// Does the partial path already hold this piece?
fn contains_piece(path: &Vec<Piece>, p: Piece) -> (r: bool)
    ensures
        r == path@.contains(p),
{
    let n = path.len();
    let mut i: usize = 0;
    while i < n
        invariant
            i <= n == path@.len(),
            forall|k: int| 0 <= k < i ==> path@[k] != p,
        decreases n - i,
    {
        if path[i] == p {
            return true;
        }
        i += 1;
    }
    false
}

/// Depth-first backtracking over the candidate sets in word order. Starting
/// from `index` with the pieces in `path` already taken and `prev_piece` the
/// last of them, it reports whether the remaining sets can be completed into
/// an adjacency-respecting, piece-distinct path; the first success is
/// propagated without exploring further. On success the found completion is
/// left appended to `path`; on failure `path` is returned as it came.
pub fn is_valid_path(
    collection: &Vec<Vec<Piece>>,
    index: usize,
    prev_piece: Option<Piece>,
    path: &mut Vec<Piece>,
) -> (r: bool)
    requires
        index < collection@.len(),
    ensures
        r == has_extension(views_of(collection@), index as int, prev_piece, old(path)@),
        !r ==> final(path)@ == old(path)@,
        r ==> exists|e: Seq<Piece>|
            extension_ok(views_of(collection@), index as int, prev_piece, old(path)@, e)
                && final(path)@ == old(path)@ + e,
    decreases collection@.len() - index,
{
    let ghost c = views_of(collection@);
    let ghost used0 = path@;
    let n = collection.len();
    let cands: &Vec<Piece> = &collection[index];
    let m = cands.len();
    let mut j: usize = 0;
    while j < m
        invariant
            index < n == collection@.len(),
            c == views_of(collection@),
            cands@ == c[index as int],
            m == cands@.len(),
            j <= m,
            path@ == used0,
            old(path)@ == used0,
            forall|e: Seq<Piece>|
                extension_ok(c, index as int, prev_piece, used0, e) ==> !cands@.take(
                    j as int,
                ).contains(#[trigger] e[0]),
        decreases m - j,
    {
        let p = cands[j];
        let dup = contains_piece(path, p);
        let adj_ok = match prev_piece {
            Some(q) => p.is_neighbor(&q),
            None => true,
        };
        if !dup && adj_ok {
            proof {
                assert(cands@[j as int] == p);
                assert(c[index as int].contains(p));
            }
            if index + 1 < n {
                path.push(p);
                let found = is_valid_path(collection, index + 1, Some(p), path);
                if found {
                    proof {
                        let e1 = choose|e1: Seq<Piece>|
                            extension_ok(c, index as int + 1, Some(p), used0.push(p), e1)
                                && path@ == used0.push(p) + e1;
                        lemma_extension_step(c, index as int, prev_piece, used0, p, e1);
                        assert(path@ =~= used0 + (seq![p] + e1));
                        assert(extension_ok(
                            views_of(collection@),
                            index as int,
                            prev_piece,
                            old(path)@,
                            seq![p] + e1,
                        ));
                        assert(has_extension(
                            views_of(collection@),
                            index as int,
                            prev_piece,
                            old(path)@,
                        ));
                    }
                    return true;
                }
                path.pop();
                proof {
                    assert(path@ =~= used0);
                }
            } else {
                // the last candidate set: this piece alone completes the path
                path.push(p);
                proof {
                    let e = seq![p];
                    assert(e[0] == p);
                    assert(extension_ok(views_of(collection@), index as int, prev_piece, old(path)@, e));
                    assert(path@ =~= used0 + e);
                    assert(has_extension(
                        views_of(collection@),
                        index as int,
                        prev_piece,
                        old(path)@,
                    ));
                }
                return true;
            }
        }
        proof {
            assert forall|e: Seq<Piece>|
                extension_ok(c, index as int, prev_piece, used0, e) implies !cands@.take(
                j as int + 1,
            ).contains(#[trigger] e[0]) by {
                lemma_take_contains_succ(cands@, j as int, e[0]);
                assert(e.len() > 0);
                if e[0] == cands@[j as int] {
                    if dup {
                        assert(!used0.contains(e[0]));
                    } else if !adj_ok {
                        assert(match prev_piece {
                            Some(q) => spec_adjacent(q, e[0]),
                            None => true,
                        });
                    } else {
                        lemma_extension_unstep(c, index as int, prev_piece, used0, e);
                        assert(has_extension(c, index as int + 1, Some(p), used0.push(p)));
                    }
                    assert(false);
                }
            }
        }
        j += 1;
    }
    proof {
        assert(cands@.take(m as int) =~= cands@);
        assert forall|e: Seq<Piece>|
            !extension_ok(c, index as int, prev_piece, used0, e) by {
            if extension_ok(c, index as int, prev_piece, used0, e) {
                assert(e.len() > 0);
                assert(c[index as int].contains(e[0]));
            }
        }
    }
    false
}

/// `e` spells the word `w` on the board: one piece per letter, bearing that
/// letter, no piece used twice, consecutive pieces adjacent.
pub open spec fn word_path_ok(pieces: Seq<Piece>, w: Seq<char>, e: Seq<Piece>) -> bool {
    &&& e.len() == w.len()
    &&& forall|j: int| 0 <= j < e.len() ==> pieces.contains(#[trigger] e[j])
    &&& forall|j: int| 0 <= j < e.len() ==> (#[trigger] e[j]).letter == w[j]
    &&& forall|j: int, k: int| 0 <= j < k < e.len() ==> e[j] != e[k]
    &&& forall|j: int| 1 <= j < e.len() ==> spec_adjacent(e[j - 1], #[trigger] e[j])
}

/// The word can be spelled somewhere on the board. An empty word never can:
/// there is nothing to spell.
pub open spec fn word_realizable(pieces: Seq<Piece>, w: Seq<char>) -> bool {
    w.len() > 0 && exists|e: Seq<Piece>| word_path_ok(pieces, w, e)
}

/// When every candidate set holds exactly the board's pieces bearing the
/// matching letter of the word, completing an empty partial path is the same
/// thing as spelling the word.
proof fn lemma_extension_matches_word(
    collection: Seq<Seq<Piece>>,
    pieces: Seq<Piece>,
    w: Seq<char>,
)
    requires
        collection.len() == w.len(),
        w.len() > 0,
        forall|k: int, q: Piece|
            0 <= k < collection.len() ==> ((#[trigger] collection[k].contains(q)) <==> pieces.contains(
                q,
            ) && q.letter == w[k]),
    ensures
        has_extension(collection, 0, None::<Piece>, Seq::<Piece>::empty()) == word_realizable(
            pieces,
            w,
        ),
{
    if has_extension(collection, 0, None::<Piece>, Seq::<Piece>::empty()) {
        let e = choose|e: Seq<Piece>|
            extension_ok(collection, 0, None::<Piece>, Seq::<Piece>::empty(), e);
        assert forall|j: int| 0 <= j < e.len() implies pieces.contains(#[trigger] e[j])
            && e[j].letter == w[j] by {
            assert(collection[j].contains(e[j]));
        }
        assert(word_path_ok(pieces, w, e));
    }
    if word_realizable(pieces, w) {
        let e = choose|e: Seq<Piece>| word_path_ok(pieces, w, e);
        assert forall|j: int| 0 <= j < e.len() implies collection[0 + j].contains(
            #[trigger] e[j],
        ) by {
            assert(pieces.contains(e[j]) && e[j].letter == w[j]);
        }
        assert forall|j: int| 0 <= j < e.len() implies !Seq::<Piece>::empty().contains(
            #[trigger] e[j],
        ) by {}
        assert(extension_ok(collection, 0, None::<Piece>, Seq::<Piece>::empty(), e));
    }
}

// A submitted word, normalized to uppercase, together with the score its
// length is worth.
#[derive(Debug)]
pub struct Guess {
    pub word: String,
    pub score: usize,
}

impl Guess {
    /// Normalize the word to uppercase and score it by its length.
    pub fn new(word: String) -> (g: Guess)
        ensures
            g.word@ == upper_seq(word@),
            g.score == spec_score(word@.len() as int),
    {
        let normalized = to_upper(word.as_str());
        let n = normalized.as_str().unicode_len();
        proof {
            assert(upper_seq(word@).len() == word@.len());
        }
        Guess { score: Guess::calculate_score(n), word: normalized }
    }

    /// The score a word of `n` letters is worth.
    pub fn calculate_score(n: usize) -> (s: usize)
        ensures
            s == spec_score(n as int),
    {
        if n < MIN_SCORING_LENGTH {
            0
        } else if n == MIN_SCORING_LENGTH {
            1
        } else {
            n - MIN_SCORING_LENGTH
        }
    }

    /// Can this guess's word be spelled on the board? Builds one candidate
    /// set per letter — every board piece bearing that letter — and runs the
    /// path search over them; a letter absent from the board settles the
    /// answer at once.
    pub fn is_valid(&self, board: &Board) -> (r: bool)
        ensures
            r == word_realizable(board.pieces@, self.word@),
    {
        let w = self.word.as_str();
        let n = w.unicode_len();
        if n == 0 {
            return false;
        }

        // verify letters exist on board
        // if letter exists, add all instances to collection
        let mut collection: Vec<Vec<Piece>> = Vec::new();
        let mut i: usize = 0;
        while i < n
            invariant
                w@ == self.word@,
                n == self.word@.len(),
                i <= n,
                collection@.len() == i,
                forall|k: int, q: Piece|
                    0 <= k < i ==> ((#[trigger] collection@[k]@.contains(q)) <==> board.pieces@.contains(
                        q,
                    ) && q.letter == self.word@[k]),
            decreases n - i,
        {
            let c = w.get_char(i);
            match board.first_instance_of(c) {
                Some(_) => {
                    let cells = board.get_all_instances_of(c);
                    proof {
                        let pred = |p: Piece| p.letter == c;
                        assert forall|q: Piece| cells@.contains(q) implies board.pieces@.contains(q)
                            && q.letter == c by {
                            board.pieces@.lemma_filter_contains_rev(pred, q);
                            let x = choose|x: int|
                                0 <= x < cells@.len() && #[trigger] cells@[x] == q;
                            board.pieces@.lemma_filter_pred(pred, x);
                        }
                        assert forall|q: Piece|
                            board.pieces@.contains(q) && q.letter == c implies cells@.contains(
                            q,
                        ) by {
                            let x = choose|x: int|
                                0 <= x < board.pieces@.len() && #[trigger] board.pieces@[x] == q;
                            board.pieces@.lemma_filter_contains(pred, x);
                        }
                    }
                    collection.push(cells);
                }
                None => {
                    proof {
                        assert forall|e: Seq<Piece>|
                            !word_path_ok(board.pieces@, self.word@, e) by {
                            if word_path_ok(board.pieces@, self.word@, e) {
                                assert(board.pieces@.contains(e[i as int]));
                                let x = choose|x: int|
                                    0 <= x < board.pieces@.len() && #[trigger] board.pieces@[x]
                                        == e[i as int];
                                assert(board.pieces@[x].letter != c);
                            }
                        }
                    }
                    return false;
                }
            }
            i += 1;
        }
        let mut path: Vec<Piece> = Vec::new();
        let r = is_valid_path(&collection, 0, None, &mut path);
        proof {
            let cv = views_of(collection@);
            assert forall|k: int, q: Piece|
                0 <= k < cv.len() implies ((#[trigger] cv[k].contains(q)) <==> board.pieces@.contains(
                q,
            ) && q.letter == self.word@[k]) by {
                assert(cv[k] == collection@[k]@);
            }
            lemma_extension_matches_word(cv, board.pieces@, self.word@);
        }
        r
    }
}

/// Some guess in the bucket has exactly this (normalized) word.
pub open spec fn holds_word(bucket: Seq<Guess>, w: Seq<char>) -> bool {
    exists|i: int| 0 <= i < bucket.len() && (#[trigger] bucket[i]).word@ == w
}

/// The word stands somewhere in the dictionary.
pub open spec fn dict_has(dict: Seq<String>, w: Seq<char>) -> bool {
    exists|i: int| 0 <= i < dict.len() && (#[trigger] dict[i])@ == w
}

/// Whether the board's optional dictionary accepts the word; with no
/// dictionary every word is accepted.
pub open spec fn dictionary_accepts(dict: Option<Vec<String>>, w: Seq<char>) -> bool {
    match dict {
        Some(d) => dict_has(d@, w),
        None => true,
    }
}

/// The new bucket is the old one with a guess for word `w`, scored `sc`,
/// appended at the end.
pub open spec fn appended_guess(old_b: Seq<Guess>, new_b: Seq<Guess>, w: Seq<char>, sc: int) -> bool {
    &&& new_b.len() == old_b.len() + 1
    &&& new_b.take(old_b.len() as int) == old_b
    &&& new_b.last().word@ == w
    &&& new_b.last().score == sc
}

/// How one submission changes the ledger. A word already in the valid bucket
/// is dropped unchanged; otherwise it is scored, normalized and appended to
/// exactly one bucket: valid when a path exists and the dictionary accepts
/// it, not-in-dictionary when a path exists but the dictionary does not,
/// invalid when no path exists. Only the valid bucket deduplicates.
pub open spec fn submit_outcome(pre: Guesses, post: Guesses, board: Board, word: Seq<char>) -> bool {
    let w = upper_seq(word);
    let sc = spec_score(word.len() as int);
    if holds_word(pre.valid@, w) {
        post == pre
    } else if word_realizable(board.pieces@, w) {
        if dictionary_accepts(board.dictionary, w) {
            &&& appended_guess(pre.valid@, post.valid@, w, sc)
            &&& post.invalid@ == pre.invalid@
            &&& post.not_in_dict@ == pre.not_in_dict@
        } else {
            &&& appended_guess(pre.not_in_dict@, post.not_in_dict@, w, sc)
            &&& post.valid@ == pre.valid@
            &&& post.invalid@ == pre.invalid@
        }
    } else {
        &&& appended_guess(pre.invalid@, post.invalid@, w, sc)
        &&& post.valid@ == pre.valid@
        &&& post.not_in_dict@ == pre.not_in_dict@
    }
}

/// Minimum word length that scores any points.
pub const MIN_SCORING_LENGTH: usize = 3;

/// The score a word of `n` letters is worth: nothing below the minimum
/// length, one point at it, and one point per extra letter above it.
pub open spec fn spec_score(n: int) -> int {
    if n < MIN_SCORING_LENGTH as int {
        0
    } else if n == MIN_SCORING_LENGTH as int {
        1
    } else {
        n - MIN_SCORING_LENGTH as int
    }
}

/// Does some guess in the bucket carry exactly this word?
fn bucket_holds(bucket: &Vec<Guess>, w: &String) -> (r: bool)
    ensures
        r == holds_word(bucket@, w@),
{
    let n = bucket.len();
    let mut i: usize = 0;
    while i < n
        invariant
            i <= n == bucket@.len(),
            forall|k: int| 0 <= k < i ==> (#[trigger] bucket@[k]).word@ != w@,
        decreases n - i,
    {
        if bucket[i].word.eq(w) {
            return true;
        }
        i += 1;
    }
    false
}

/// Does the dictionary list exactly this word?
fn dict_contains(dict: &Vec<String>, w: &String) -> (r: bool)
    ensures
        r == dict_has(dict@, w@),
{
    let n = dict.len();
    let mut i: usize = 0;
    while i < n
        invariant
            i <= n == dict@.len(),
            forall|k: int| 0 <= k < i ==> (#[trigger] dict@[k])@ != w@,
        decreases n - i,
    {
        if dict[i].eq(w) {
            return true;
        }
        i += 1;
    }
    false
}

/// The scores of a bucket's guesses, added up.
pub open spec fn sum_scores(s: Seq<Guess>) -> int
    decreases s.len(),
{
    if s.len() == 0 {
        0
    } else {
        sum_scores(s.drop_last()) + s.last().score
    }
}

/// The total score as reported: the sum over the valid bucket, clamped at
/// the machine's limit.
pub open spec fn clamped_total(s: Seq<Guess>) -> int {
    if sum_scores(s) > usize::MAX as int {
        usize::MAX as int
    } else {
        sum_scores(s)
    }
}

/// A bucket's words, one per line.
pub open spec fn words_block(s: Seq<Guess>) -> Seq<char>
    decreases s.len(),
{
    if s.len() == 0 {
        Seq::<char>::empty()
    } else {
        words_block(s.drop_last()) + s.last().word@ + seq!['\n']
    }
}

/// The ledger's textual summary: the three buckets under their headers,
/// followed by the total score.
pub open spec fn spec_summary(g: Guesses) -> Seq<char> {
    "\nValid words\n=============\n"@ + words_block(g.valid@)
        + "\nInvalid words\n=============\n"@ + words_block(g.invalid@)
        + "\nNot in dictionary\n=============\n"@ + words_block(g.not_in_dict@)
        + "\nTotal Score: "@ + spec_decimal(clamped_total(g.valid@) as nat)
}

/// Append a bucket's words to the report, one per line.
fn append_words(out: &mut String, bucket: &Vec<Guess>)
    ensures
        final(out)@ == old(out)@ + words_block(bucket@),
{
    let n = bucket.len();
    let mut i: usize = 0;
    proof {
        assert(out@ =~= out@ + words_block(bucket@.take(0)));
    }
    while i < n
        invariant
            i <= n == bucket@.len(),
            out@ == old(out)@ + words_block(bucket@.take(i as int)),
        decreases n - i,
    {
        out.append(bucket[i].word.as_str());
        push_char(out, '\n');
        proof {
            assert(bucket@.take(i + 1).drop_last() =~= bucket@.take(i as int));
            assert(bucket@.take(i + 1).last() == bucket@[i as int]);
            assert(out@ =~= old(out)@ + words_block(bucket@.take(i + 1)));
        }
        i += 1;
    }
    proof {
        assert(bucket@.take(n as int) =~= bucket@);
    }
}

// The ledger of submitted guesses: three disjoint, append-only buckets, one
// of which each submission lands in.
#[derive(Debug)]
pub struct Guesses {
    pub invalid: Vec<Guess>,
    pub valid: Vec<Guess>,
    pub not_in_dict: Vec<Guess>,
}

impl Guesses {
    /// An empty ledger.
    pub fn new() -> (g: Guesses)
        ensures
            g.valid@.len() == 0,
            g.invalid@.len() == 0,
            g.not_in_dict@.len() == 0,
    {
        Guesses { invalid: Vec::new(), valid: Vec::new(), not_in_dict: Vec::new() }
    }

    /// Submit one word against the board: normalize and score it, drop it if
    /// the valid bucket already holds it, and otherwise append it to the one
    /// bucket its path search and dictionary lookup select.
    pub fn add_guess(&mut self, word: String, board: &Board)
        ensures
            submit_outcome(*old(self), *final(self), *board, word@),
    {
        let ghost pre = *self;
        let guess = Guess::new(word);
        // skip if duplicate word
        if bucket_holds(&self.valid, &guess.word) {
            return;
        }
        // add to proper queue based on validity
        if guess.is_valid(board) {
            // if dictionary exists, check for existence
            // if no dictionary, then word is valid by default
            let listed = match &board.dictionary {
                Some(lines) => dict_contains(lines, &guess.word),
                None => true,
            };
            if listed {
                self.valid.push(guess);
                proof {
                    assert(self.valid@.take(pre.valid@.len() as int) =~= pre.valid@);
                }
            } else {
                self.not_in_dict.push(guess);
                proof {
                    assert(self.not_in_dict@.take(pre.not_in_dict@.len() as int)
                        =~= pre.not_in_dict@);
                }
            }
        } else {
            self.invalid.push(guess);
            proof {
                assert(self.invalid@.take(pre.invalid@.len() as int) =~= pre.invalid@);
            }
        }
    }

    /// The total score over the valid bucket, recomputed on demand. It
    /// saturates at the machine's limit instead of overflowing.
    pub fn total_score(&self) -> (t: usize)
        ensures
            t == clamped_total(self.valid@),
    {
        let n = self.valid.len();
        let mut acc: usize = 0;
        let mut i: usize = 0;
        while i < n
            invariant
                i <= n == self.valid@.len(),
                acc == if sum_scores(self.valid@.take(i as int)) > usize::MAX as int {
                    usize::MAX as int
                } else {
                    sum_scores(self.valid@.take(i as int))
                },
            decreases n - i,
        {
            let s = self.valid[i].score;
            proof {
                assert(self.valid@.take(i + 1).drop_last() =~= self.valid@.take(i as int));
                assert(self.valid@.take(i + 1).last() == self.valid@[i as int]);
            }
            if usize::MAX - acc < s {
                acc = usize::MAX;
            } else {
                acc = acc + s;
            }
            i += 1;
        }
        proof {
            assert(self.valid@.take(n as int) =~= self.valid@);
        }
        acc
    }

    /// The human-readable report: each bucket's words under its header,
    /// then the total score.
    pub fn summary(&self) -> (r: String)
        ensures
            r@ == spec_summary(*self),
    {
        let mut out = String::new();
        out.append("\nValid words\n=============\n");
        append_words(&mut out, &self.valid);
        out.append("\nInvalid words\n=============\n");
        append_words(&mut out, &self.invalid);
        out.append("\nNot in dictionary\n=============\n");
        append_words(&mut out, &self.not_in_dict);
        out.append("\nTotal Score: ");
        let total = self.total_score();
        let digits = decimal_string(total);
        out.append(digits.as_str());
        proof {
            assert(out@ =~= spec_summary(*self));
        }
        out
    }
}

/// A single-letter word can be spelled on the board exactly when some piece
/// bears its letter: no adjacency constraint applies.
pub proof fn lemma_single_letter_realizable(pieces: Seq<Piece>, w: Seq<char>)
    requires
        w.len() == 1,
    ensures
        word_realizable(pieces, w) <==> exists|q: Piece| pieces.contains(q) && (#[trigger] q.letter)
            == w[0],
{
    if word_realizable(pieces, w) {
        let e = choose|e: Seq<Piece>| word_path_ok(pieces, w, e);
        assert(pieces.contains(e[0]) && e[0].letter == w[0]);
    }
    if exists|q: Piece| pieces.contains(q) && (#[trigger] q.letter) == w[0] {
        let q = choose|q: Piece| pieces.contains(q) && (#[trigger] q.letter) == w[0];
        let e = seq![q];
        assert(e[0] == q);
        assert(word_path_ok(pieces, w, e));
    }
}

/// A word with a letter no piece of the board bears can never be spelled.
pub proof fn lemma_absent_letter_unrealizable(pieces: Seq<Piece>, w: Seq<char>, j: int)
    requires
        0 <= j < w.len(),
        forall|q: Piece| pieces.contains(q) ==> (#[trigger] q.letter) != w[j],
    ensures
        !word_realizable(pieces, w),
{
    assert forall|e: Seq<Piece>| !word_path_ok(pieces, w, e) by {
        if word_path_ok(pieces, w, e) {
            assert(pieces.contains(e[j]) && e[j].letter == w[j]);
        }
    }
}

/// Resubmitting a word the valid bucket already holds leaves the whole
/// ledger — every bucket, and with it the total score — unchanged.
pub proof fn lemma_resubmission_is_noop(pre: Guesses, post: Guesses, board: Board, word: Seq<char>)
    requires
        submit_outcome(pre, post, board, word),
        holds_word(pre.valid@, upper_seq(word)),
    ensures
        post == pre,
        sum_scores(post.valid@) == sum_scores(pre.valid@),
{
}

// A player, known by name.
pub struct Player {
    pub name: String,
}

impl Player {
    pub fn new(name: String) -> (p: Player)
        ensures
            p.name@ == name@,
    {
        Player { name }
    }
}

// One session: a board, a player, and the ledger of the player's guesses.
pub struct Game {
    pub board: Board,
    pub player: Player,
    pub guesses: Guesses,
}

impl Game {
    /// Submit one word to the session's ledger against its board.
    pub fn add_guess(&mut self, word: String)
        ensures
            submit_outcome(old(self).guesses, final(self).guesses, old(self).board, word@),
            final(self).board == old(self).board,
            final(self).player == old(self).player,
    {
        self.guesses.add_guess(word, &self.board)
    }
}

} // verus!
