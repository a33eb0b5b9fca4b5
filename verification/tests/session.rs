use goban::go::{GoError, Intersection, BLACK, WHITE};
use goban::session::Session;

fn color_at(s: &Session, x: usize, y: usize) -> usize {
    match &s.board().pieces[x][y] {
        Intersection::Empty => 0,
        Intersection::Black(_) => 1,
        Intersection::White(_) => 2,
    }
}

fn play(s: &mut Session, x: usize, y: usize, color: usize) -> Vec<(usize, usize)> {
    assert!(s.validate(x, y, color), "move ({}, {}) of {} should be legal", x, y, color);
    s.apply_move(x, y, color)
}

#[test]
fn capture_of_a_surrounded_stone() {
    let mut s = Session::new();
    assert_eq!(play(&mut s, 4, 4, WHITE), vec![]);
    assert_eq!(play(&mut s, 3, 4, BLACK), vec![]);
    assert_eq!(play(&mut s, 5, 4, BLACK), vec![]);
    assert_eq!(play(&mut s, 4, 3, BLACK), vec![]);
    assert_eq!(play(&mut s, 4, 5, BLACK), vec![(4, 4)]);
    assert_eq!(color_at(&s, 4, 4), 0);
}

#[test]
fn suicide_into_an_eye_is_rejected() {
    let mut s = Session::new();
    play(&mut s, 3, 4, BLACK);
    play(&mut s, 5, 4, BLACK);
    play(&mut s, 4, 3, BLACK);
    play(&mut s, 4, 5, BLACK);
    assert!(!s.validate(4, 4, WHITE));
    assert_eq!(s.check_move(4, 4, WHITE), Err(GoError::SuicideMove));
    assert_eq!(s.check_move(4, 4, BLACK), Ok(()));
    assert_eq!(color_at(&s, 4, 4), 0);
}

#[test]
fn occupied_and_out_of_bounds_are_rejected() {
    let mut s = Session::new();
    play(&mut s, 3, 3, BLACK);
    assert!(!s.validate(3, 3, WHITE));
    assert_eq!(s.check_move(3, 3, WHITE), Err(GoError::OccupiedCell));
    assert!(!s.validate(19, 0, WHITE));
    assert!(!s.validate(0, 19, WHITE));
    assert_eq!(s.check_move(19, 0, WHITE), Err(GoError::OutOfBounds));
    assert!(!s.validate(5, 5, 0));
    assert!(!s.validate(5, 5, 3));
}

#[test]
fn ko_recapture_is_rejected() {
    let mut s = Session::new();
    // Black stones round (1, 2), white stones round (1, 1).
    play(&mut s, 0, 1, BLACK);
    play(&mut s, 0, 2, WHITE);
    play(&mut s, 1, 0, BLACK);
    play(&mut s, 1, 3, WHITE);
    play(&mut s, 2, 1, BLACK);
    play(&mut s, 2, 2, WHITE);
    play(&mut s, 1, 2, BLACK);
    // White takes the black stone at (1, 2) by playing at (1, 1).
    assert_eq!(play(&mut s, 1, 1, WHITE), vec![(1, 2)]);
    // Black retakes at (1, 2): this brings back the board before white's capture.
    assert!(!s.validate(1, 2, BLACK));
    assert_eq!(s.check_move(1, 2, BLACK), Err(GoError::KoViolation));
    // Elsewhere black may play.
    assert!(s.validate(10, 10, BLACK));
}

#[test]
fn undo_and_redo_round_trip() {
    let mut s = Session::new();
    play(&mut s, 4, 4, WHITE);
    play(&mut s, 3, 4, BLACK);
    play(&mut s, 5, 4, BLACK);
    play(&mut s, 4, 3, BLACK);
    play(&mut s, 4, 5, BLACK);
    let before = s.board().pieces.clone();
    let (added, removed) = s.undo();
    assert_eq!(added, vec![(4, 4, 2)]);
    assert_eq!(removed, vec![(4, 5)]);
    for _ in 0..4 {
        s.undo();
    }
    assert_eq!(s.tree().game.curr, 0);
    assert_eq!(s.undo(), (vec![], vec![]));
    for _ in 0..5 {
        s.redo();
    }
    assert_eq!(s.board().pieces, before);
    assert_eq!(s.redo(), (vec![], vec![]));
}

#[test]
fn redo_takes_the_last_variation() {
    let mut s = Session::new();
    play(&mut s, 3, 3, BLACK);
    s.undo();
    play(&mut s, 15, 15, BLACK);
    s.undo();
    let (added, removed) = s.redo();
    assert_eq!(added, vec![(15, 15, 1)]);
    assert_eq!(removed, vec![]);
    assert_eq!(color_at(&s, 3, 3), 0);
}

#[test]
fn revert_out_of_range_changes_nothing() {
    let mut s = Session::new();
    play(&mut s, 3, 3, BLACK);
    let before = s.board().pieces.clone();
    assert_eq!(s.revert_state(0), vec![]);
    assert_eq!(s.revert_state(7), vec![]);
    assert_eq!(s.board().pieces, before);
    assert_eq!(s.tree().game.curr, 1);
}

#[test]
fn save_and_revert() {
    let mut s = Session::new();
    play(&mut s, 3, 3, BLACK);
    s.save_state();
    assert_eq!(s.init_states(), 1);
    play(&mut s, 4, 4, WHITE);
    assert_eq!(s.revert_state(0), vec![(3, 3, 1)]);
    assert_eq!(color_at(&s, 4, 4), 0);
    assert_eq!(s.tree().game.curr, 1);
}

#[test]
fn encode_writes_moves_and_branches() {
    let mut s = Session::new();
    assert_eq!(s.encode_sgf(), "(;FF[4]GM[1]SZ[19])");
    play(&mut s, 0, 1, BLACK);
    play(&mut s, 18, 2, WHITE);
    assert_eq!(s.encode_sgf(), "(;FF[4]GM[1]SZ[19];B[ab];W[sc];)");
    s.undo();
    play(&mut s, 5, 5, WHITE);
    assert_eq!(s.encode_sgf(), "(;FF[4]GM[1]SZ[19];B[ab](;W[sc];)(;W[ff];))");
}

#[test]
fn decode_replays_a_record() {
    let mut s = Session::new();
    play(&mut s, 4, 4, WHITE);
    play(&mut s, 3, 4, BLACK);
    play(&mut s, 5, 4, BLACK);
    play(&mut s, 4, 3, BLACK);
    play(&mut s, 4, 5, BLACK);
    let text = s.encode_sgf();
    let board = s.board().pieces.clone();
    let mut t = Session::new();
    let stones = t.decode_sgf(&text).unwrap();
    assert_eq!(stones, vec![(3, 4, 1), (4, 3, 1), (4, 5, 1), (5, 4, 1)]);
    assert_eq!(t.board().pieces, board);
}

#[test]
fn decode_refuses_malformed_records() {
    let mut s = Session::new();
    play(&mut s, 3, 3, BLACK);
    let before = s.board().pieces.clone();
    assert_eq!(s.decode_sgf(""), Err(GoError::MalformedRecord));
    assert_eq!(s.decode_sgf("(;B[a];)"), Err(GoError::MalformedRecord));
    assert_eq!(s.decode_sgf("(;B[abc];)"), Err(GoError::MalformedRecord));
    assert_eq!(s.decode_sgf("(;B[aa];"), Err(GoError::MalformedRecord));
    assert_eq!(s.decode_sgf("(;B[aa](;W[bb];)"), Err(GoError::MalformedRecord));
    assert_eq!(s.decode_sgf("(;B[at];)"), Err(GoError::OutOfBounds));
    assert_eq!(s.decode_sgf("(;B[aa];W[A1];)"), Err(GoError::OutOfBounds));
    assert_eq!(s.board().pieces, before);
    assert_eq!(s.tree().game.nodes.len(), 2);
}

#[test]
fn reset_clears_board_and_hasher() {
    let mut s = Session::new();
    play(&mut s, 3, 3, BLACK);
    let keys = s.hash().zobrist.keys();
    s.reset();
    assert_eq!(color_at(&s, 3, 3), 0);
    assert_eq!(s.hash().zobrist.history(), vec![s.hash().zobrist.current_hash()]);
    assert_ne!(s.hash().zobrist.keys(), keys);
    // The tree stays as it is.
    assert_eq!(s.tree().game.nodes.len(), 2);
    // The position that was passed through may be played again.
    assert!(s.validate(3, 3, BLACK));
}

#[test]
fn apply_move_commits_board_hash_and_node() {
    let mut s = Session::new();
    assert_eq!(s.apply_move(3, 3, BLACK), vec![]);
    assert_eq!(s.tree().game.curr, 1);
    assert_eq!(s.tree().game.nodes[1].get_board(), s.board().pieces);
    assert_eq!(s.hash().zobrist.remembered(), s.board().pieces);
    assert_eq!(s.hash().zobrist.history().len(), 2);
}

#[test]
fn validate_leaves_the_game_alone() {
    let mut s = Session::new();
    play(&mut s, 3, 3, BLACK);
    let board = s.board().pieces.clone();
    let hash = s.hash().zobrist.current_hash();
    assert!(s.validate(3, 4, WHITE));
    assert!(!s.validate(3, 3, WHITE));
    assert_eq!(s.board().pieces, board);
    assert_eq!(s.hash().zobrist.current_hash(), hash);
    assert_eq!(s.hash().zobrist.history().len(), 2);
    assert_eq!(s.tree().game.nodes.len(), 2);
}

#[test]
fn positions_are_never_repeated() {
    let mut s = Session::new();
    play(&mut s, 3, 3, BLACK);
    s.undo();
    // The board with the one stone was passed through: it may not come back.
    assert_eq!(s.check_move(3, 3, BLACK), Err(GoError::KoViolation));
    assert!(s.validate(3, 3, WHITE));
}

#[test]
fn save_game_and_load_game() {
    let mut s = Session::new();
    play(&mut s, 3, 3, BLACK);
    s.save_state();
    play(&mut s, 4, 4, WHITE);
    s.save_state();
    play(&mut s, 5, 5, BLACK);
    let board = s.board().pieces.clone();
    let saved = s.save_game();
    assert_eq!(saved.sgf, "(;FF[4]GM[1]SZ[19];B[dd];W[ee];B[ff];)");
    assert_eq!(saved.states.len(), 2);
    let mut t = Session::new();
    let stones = t.load_game(saved).unwrap();
    assert_eq!(stones, vec![(3, 3, 1), (4, 4, 2), (5, 5, 1)]);
    assert_eq!(t.board().pieces, board);
    assert_eq!(t.init_states(), 2);
    assert_eq!(t.tree().game.states[0].1, 1);
    assert_eq!(t.tree().game.states[1].1, 2);
    assert_eq!(t.revert_state(0), vec![(3, 3, 1)]);
    assert_eq!(t.tree().game.curr, 1);
}

#[test]
fn load_game_refuses_a_broken_record_as_a_whole() {
    let mut s = Session::new();
    play(&mut s, 3, 3, BLACK);
    s.save_state();
    let mut saved = s.save_game();
    saved.sgf = String::from("(;FF[4]GM[1]SZ[19];B[dd];W[e];)");
    let board = s.board().pieces.clone();
    assert_eq!(s.load_game(saved), Err(GoError::MalformedRecord));
    assert_eq!(s.board().pieces, board);
    assert_eq!(s.init_states(), 1);
    assert_eq!(s.tree().game.nodes.len(), 2);
}

#[test]
fn reports_of_a_round_trip_net_to_no_change() {
    let mut s = Session::new();
    let moves = [(4, 4, WHITE), (3, 4, BLACK), (5, 4, BLACK), (4, 3, BLACK), (4, 5, BLACK)];
    for &(x, y, color) in &moves {
        play(&mut s, x, y, color);
    }
    let mut shown = [[0usize; 19]; 19];
    for x in 0..19 {
        for y in 0..19 {
            shown[x][y] = color_at(&s, x, y);
        }
    }
    let at_first = shown;
    for step in 0..10 {
        let (added, removed) = if step < 5 { s.undo() } else { s.redo() };
        for (x, y) in removed {
            shown[x][y] = 0;
        }
        for (x, y, color) in added {
            shown[x][y] = color;
        }
        for x in 0..19 {
            for y in 0..19 {
                assert_eq!(shown[x][y], color_at(&s, x, y));
            }
        }
    }
    assert_eq!(shown, at_first);
}

#[test]
fn capture_on_the_small_board() {
    let mut s = Session::with_size(9).unwrap();
    assert_eq!(s.size(), 9);
    assert_eq!(play(&mut s, 4, 4, WHITE), vec![]);
    assert_eq!(play(&mut s, 3, 4, BLACK), vec![]);
    assert_eq!(play(&mut s, 5, 4, BLACK), vec![]);
    assert_eq!(play(&mut s, 4, 3, BLACK), vec![]);
    assert_eq!(play(&mut s, 4, 5, BLACK), vec![(4, 4)]);
    assert_eq!(color_at(&s, 4, 4), 0);
    assert_eq!(s.encode_sgf(), "(;FF[4]GM[1]SZ[9];W[ee];B[de];B[fe];B[ed];B[ef];)");
}

#[test]
fn boards_are_small_or_full() {
    assert!(Session::with_size(9).is_some());
    assert!(Session::with_size(19).is_some());
    assert!(Session::with_size(13).is_none());
    assert!(Session::with_size(0).is_none());
    assert_eq!(Session::new().size(), 19);
}

#[test]
fn the_small_board_has_no_tenth_line() {
    let mut s = Session::with_size(9).unwrap();
    assert!(s.validate(8, 8, BLACK));
    assert!(!s.validate(9, 0, BLACK));
    assert!(!s.validate(0, 9, BLACK));
    assert_eq!(s.check_move(9, 9, BLACK), Err(GoError::OutOfBounds));
    assert_eq!(s.decode_sgf("(;FF[4]GM[1]SZ[9];B[aj];)"), Err(GoError::OutOfBounds));
    // A stone in the corner of the small board has two liberties: white takes it.
    play(&mut s, 8, 8, BLACK);
    play(&mut s, 7, 8, WHITE);
    assert_eq!(play(&mut s, 8, 7, WHITE), vec![(8, 8)]);
    // The size stays through a reset and through the reading of a record.
    s.reset();
    assert_eq!(s.size(), 9);
    assert_eq!(s.decode_sgf("(;FF[4]GM[1]SZ[9];B[ii];)"), Ok(vec![(8, 8, 1)]));
    assert_eq!(s.size(), 9);
    assert_eq!(s.board().pieces.len(), 9);
}

#[test]
fn apply_move_lists_each_captured_stone_once() {
    let mut s = Session::new();
    play(&mut s, 0, 1, WHITE);
    play(&mut s, 1, 1, WHITE);
    play(&mut s, 1, 0, WHITE);
    play(&mut s, 0, 2, BLACK);
    play(&mut s, 1, 2, BLACK);
    play(&mut s, 2, 0, BLACK);
    play(&mut s, 2, 1, BLACK);
    assert!(s.validate(0, 0, BLACK));
    assert_eq!(s.apply_move(0, 0, BLACK), vec![(0, 1), (1, 0), (1, 1)]);
    assert_eq!(color_at(&s, 0, 1), 0);
    assert_eq!(color_at(&s, 1, 0), 0);
    assert_eq!(color_at(&s, 1, 1), 0);
}

#[test]
fn undo_reports_only_points_that_changed_colour() {
    let mut s = Session::new();
    play(&mut s, 3, 3, WHITE);
    // A black stone next to the white one: the white stone's record changes, the stone stays.
    play(&mut s, 3, 4, BLACK);
    play(&mut s, 3, 5, BLACK);
    assert_eq!(s.undo(), (vec![], vec![(3, 5)]));
    assert_eq!(s.undo(), (vec![], vec![(3, 4)]));
    assert_eq!(s.redo(), (vec![(3, 4, 1)], vec![]));
    assert_eq!(s.redo(), (vec![(3, 5, 1)], vec![]));
}
