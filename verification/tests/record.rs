use goban::go::{GoError, BLACK, WHITE};
use goban::names::with_suffix;
use goban::session::Session;
use goban::sgf::{chars_of, eval_token, parse_sgf};

fn chars(s: &str) -> Vec<char> {
    s.chars().collect()
}

fn token(s: &str) -> Result<Option<(usize, usize, usize)>, GoError> {
    let text = chars(s);
    eval_token(&text, 0, text.len(), 19, false)
}

#[test]
fn chars_of_a_string() {
    assert_eq!(chars_of("B[ab]"), vec!['B', '[', 'a', 'b', ']']);
    assert_eq!(chars_of(""), vec![]);
}

#[test]
fn tokens_that_are_moves() {
    assert_eq!(token("B[aa]"), Ok(Some((0, 0, BLACK))));
    assert_eq!(token("W[sc]"), Ok(Some((18, 2, WHITE))));
    assert_eq!(token("B[cd]("), Ok(Some((2, 3, BLACK))));
    assert_eq!(token("W[bc])"), Ok(Some((1, 2, WHITE))));
    assert_eq!(token("W[bc]))("), Ok(Some((1, 2, WHITE))));
}

#[test]
fn tokens_that_stand_for_nothing() {
    assert_eq!(token(""), Ok(None));
    assert_eq!(token(")("), Ok(None));
    assert_eq!(token("))"), Ok(None));
    assert_eq!(token("("), Ok(None));
}

#[test]
fn the_properties_stand_for_nothing_straight_after_the_opening() {
    let text = chars("FF[4]GM[1]SZ[19]");
    assert_eq!(eval_token(&text, 0, text.len(), 19, true), Ok(None));
    assert_eq!(eval_token(&text, 0, text.len(), 19, false), Err(GoError::MalformedRecord));
    // The properties of a board of another size are none of this board.
    assert_eq!(eval_token(&text, 0, text.len(), 9, true), Err(GoError::MalformedRecord));
    let text = chars("FF[4]GM[1]SZ[9](");
    assert_eq!(eval_token(&text, 0, text.len(), 9, true), Ok(None));
    let text = chars("FF[4]GM[1]SZ[19]C[x]");
    assert_eq!(eval_token(&text, 0, text.len(), 19, true), Err(GoError::MalformedRecord));
    // A move straight after the opening is a move.
    let text = chars("B[aa]");
    assert_eq!(eval_token(&text, 0, text.len(), 19, true), Ok(Some((0, 0, BLACK))));
}

#[test]
fn tokens_with_an_unknown_tag() {
    assert_eq!(token("X[aa]"), Err(GoError::MalformedRecord));
    assert_eq!(token("BW[aa]"), Err(GoError::MalformedRecord));
    assert_eq!(token("b[aa]"), Err(GoError::MalformedRecord));
    assert_eq!(token("[aa]"), Err(GoError::MalformedRecord));
    assert_eq!(token("C[a comment]"), Err(GoError::MalformedRecord));
    assert_eq!(token("(B[aa]"), Err(GoError::MalformedRecord));
}

#[test]
fn tokens_with_broken_coordinates() {
    assert_eq!(token("B"), Err(GoError::MalformedRecord));
    assert_eq!(token("B["), Err(GoError::MalformedRecord));
    assert_eq!(token("B[]"), Err(GoError::MalformedRecord));
    assert_eq!(token("B[a]"), Err(GoError::MalformedRecord));
    assert_eq!(token("W[abc]"), Err(GoError::MalformedRecord));
    assert_eq!(token("W[ab"), Err(GoError::MalformedRecord));
    assert_eq!(token("W[ab]x"), Err(GoError::MalformedRecord));
    assert_eq!(token("W[ab]B[cd]"), Err(GoError::MalformedRecord));
    assert_eq!(token("W[ta]"), Err(GoError::OutOfBounds));
    assert_eq!(token("W[a`]"), Err(GoError::OutOfBounds));
    assert_eq!(token("W[AB]"), Err(GoError::OutOfBounds));
}

#[test]
fn a_token_inside_a_text() {
    let text = chars("(;B[ab];W[cd])");
    assert_eq!(eval_token(&text, 2, 7, 19, false), Ok(Some((0, 1, BLACK))));
    assert_eq!(eval_token(&text, 8, 13, 19, false), Ok(Some((2, 3, WHITE))));
    assert_eq!(eval_token(&text, 7, 7, 19, false), Ok(None));
}

#[test]
fn parse_reads_the_moves_in_order() {
    assert_eq!(parse_sgf(&chars("(;FF[4]GM[1]SZ[19])"), 19), Ok(vec![]));
    assert_eq!(
        parse_sgf(&chars("(;FF[4]GM[1]SZ[19];B[ab];W[sc];)"), 19),
        Ok(vec![(0, 1, BLACK), (18, 2, WHITE)])
    );
    assert_eq!(parse_sgf(&chars("()"), 19), Ok(vec![]));
}

#[test]
fn parse_flattens_branches() {
    assert_eq!(
        parse_sgf(&chars("(;FF[4]GM[1]SZ[19];B[ab](;W[sc];)(;W[ff];))"), 19),
        Ok(vec![(0, 1, BLACK), (18, 2, WHITE), (5, 5, WHITE)])
    );
}

#[test]
fn parse_refuses_mismatched_parentheses() {
    assert_eq!(parse_sgf(&chars(""), 19), Err(GoError::MalformedRecord));
    assert_eq!(parse_sgf(&chars("("), 19), Err(GoError::MalformedRecord));
    assert_eq!(parse_sgf(&chars(";B[aa];"), 19), Err(GoError::MalformedRecord));
    assert_eq!(parse_sgf(&chars("(;B[aa];"), 19), Err(GoError::MalformedRecord));
    assert_eq!(parse_sgf(&chars(";B[aa];)"), 19), Err(GoError::MalformedRecord));
    assert_eq!(parse_sgf(&chars("(;B[aa](;W[bb];)"), 19), Err(GoError::MalformedRecord));
    assert_eq!(parse_sgf(&chars("(;B[aa]);W[bb];()"), 19), Err(GoError::MalformedRecord));
}

#[test]
fn parse_gives_the_error_of_the_first_broken_move() {
    assert_eq!(parse_sgf(&chars("(;B[aa];W[zz];B[a];)"), 19), Err(GoError::OutOfBounds));
    assert_eq!(parse_sgf(&chars("(;B[aa];W[b];B[zz];)"), 19), Err(GoError::MalformedRecord));
}

#[test]
fn record_of_a_line_reads_back_to_the_same_board() {
    let mut s = Session::new();
    let moves = [
        (3, 3, BLACK),
        (3, 4, WHITE),
        (2, 4, BLACK),
        (15, 15, WHITE),
        (4, 4, BLACK),
        (16, 16, WHITE),
        (3, 5, BLACK),
    ];
    for &(x, y, color) in &moves {
        assert!(s.validate(x, y, color));
        s.apply_move(x, y, color);
    }
    // The white stone at (3, 4) was captured by the last move.
    assert_eq!(s.board().pieces[3][4], goban::go::Intersection::Empty);
    let text = s.encode_sgf();
    assert_eq!(parse_sgf(&chars(&text), 19), Ok(moves.to_vec()));
    let mut t = Session::new();
    let stones = t.decode_sgf(&text).unwrap();
    assert_eq!(t.board().pieces, s.board().pieces);
    assert_eq!(stones.len(), 6);
    assert_eq!(t.encode_sgf(), text);
    assert_eq!(t.tree().game.curr, 7);
}

#[test]
fn decode_passes_over_moves_that_are_not_legal() {
    let mut s = Session::new();
    let stones = s.decode_sgf("(;FF[4]GM[1]SZ[19];B[aa];W[aa];W[bb];)").unwrap();
    assert_eq!(stones, vec![(0, 0, 1), (1, 1, 2)]);
    assert_eq!(s.tree().game.nodes.len(), 3);
}

#[test]
fn from_sgf_plays_onto_the_game_as_it_stands() {
    let mut s = Session::new();
    s.apply_move(9, 9, BLACK);
    let stones = s.from_sgf("(;FF[4]GM[1]SZ[19];W[aa];)").unwrap();
    assert_eq!(stones, vec![(0, 0, 2), (9, 9, 1)]);
    assert_eq!(s.tree().game.nodes.len(), 3);
    assert_eq!(s.from_sgf("(;W[a];)"), Err(GoError::MalformedRecord));
    assert_eq!(s.tree().game.nodes.len(), 3);
}

#[test]
fn file_names_get_their_suffix_once() {
    assert_eq!(with_suffix("game", ".sgf"), "game.sgf");
    assert_eq!(with_suffix("game.sgf", ".sgf"), "game.sgf");
    assert_eq!(with_suffix("sgf", ".sgf"), "sgf.sgf");
    assert_eq!(with_suffix("", ".save"), ".save");
    assert_eq!(with_suffix("a.save", ".save"), "a.save");
    assert_eq!(with_suffix("a.sgf", ".save"), "a.sgf.save");
}

#[test]
fn letters_beyond_a_small_board_are_out_of_bounds() {
    let text = chars("B[ai]");
    assert_eq!(eval_token(&text, 0, 5, 9, false), Ok(Some((0, 8, BLACK))));
    let text = chars("B[aj]");
    assert_eq!(eval_token(&text, 0, 5, 9, false), Err(GoError::OutOfBounds));
    assert_eq!(eval_token(&text, 0, 5, 19, false), Ok(Some((0, 9, BLACK))));
    assert_eq!(parse_sgf(&chars("(;FF[4]GM[1]SZ[9];B[ii];W[ja];)"), 9), Err(GoError::OutOfBounds));
    assert_eq!(parse_sgf(&chars("(;FF[4]GM[1]SZ[9];B[ii];W[ha];)"), 9), Ok(vec![(8, 8, 1), (7, 0, 2)]));
}

#[test]
fn parse_refuses_an_unknown_tag() {
    assert_eq!(parse_sgf(&chars("(;FF[4]GM[1]SZ[19];X[aa])"), 19), Err(GoError::MalformedRecord));
    assert_eq!(parse_sgf(&chars("(;FF[4]GM[1]SZ[19];B[aa];X[bb];)"), 19), Err(GoError::MalformedRecord));
    // The properties stand straight after the opening, or nowhere.
    assert_eq!(parse_sgf(&chars("(;B[aa];FF[4]GM[1]SZ[19];)"), 19), Err(GoError::MalformedRecord));
    assert_eq!(parse_sgf(&chars("(FF[4]GM[1]SZ[19];B[aa];)"), 19), Err(GoError::MalformedRecord));
    assert_eq!(parse_sgf(&chars("(;FF[4]GM[1]SZ[9];B[aa];)"), 19), Err(GoError::MalformedRecord));
    assert_eq!(parse_sgf(&chars("(;B[aa];W[bb];)"), 19), Ok(vec![(0, 0, BLACK), (1, 1, WHITE)]));
}

#[test]
fn decode_refuses_an_unknown_tag_as_a_whole() {
    let mut s = Session::new();
    s.apply_move(9, 9, BLACK);
    let board = s.board().pieces.clone();
    assert_eq!(s.decode_sgf("(;FF[4]GM[1]SZ[19];B[aa];X[bb];)"), Err(GoError::MalformedRecord));
    assert_eq!(s.from_sgf("(;FF[4]GM[1]SZ[19];X[aa])"), Err(GoError::MalformedRecord));
    assert_eq!(s.board().pieces, board);
    assert_eq!(s.tree().game.nodes.len(), 2);
}

#[test]
fn a_game_reads_back_from_its_own_record() {
    let mut s = Session::with_size(9).unwrap();
    // Moves at any coordinates; those that are not legal are passed over.
    let tries = [
        (4, 4, WHITE),
        (3, 4, BLACK),
        (3, 4, WHITE),
        (5, 4, BLACK),
        (9, 0, BLACK),
        (4, 3, BLACK),
        (4, 5, BLACK),
        (4, 4, WHITE),
        (0, 0, WHITE),
        (8, 8, BLACK),
    ];
    let mut played = Vec::new();
    for &(x, y, color) in &tries {
        if s.validate(x, y, color) {
            s.apply_move(x, y, color);
            played.push((x, y, color));
        }
    }
    assert_eq!(played.len(), 7);
    let keys = s.hash().zobrist.keys();
    let board = s.board().pieces.clone();
    let mut seen = s.hash().zobrist.history();
    seen.sort();
    let text = s.encode_sgf();
    assert_eq!(parse_sgf(&chars(&text), 9), Ok(played));
    let stones = s.decode_sgf(&text).unwrap();
    assert_eq!(s.board().pieces, board);
    assert_eq!(stones, vec![(0, 0, 2), (3, 4, 1), (4, 3, 1), (4, 5, 1), (5, 4, 1), (8, 8, 1)]);
    assert_eq!(s.encode_sgf(), text);
    assert_eq!(s.tree().game.curr, 7);
    // The hasher kept its keys and passed through the same positions again.
    assert_eq!(s.hash().zobrist.keys(), keys);
    let mut again = s.hash().zobrist.history();
    again.sort();
    assert_eq!(again, seen);
}
