use goban::go::{empty_board, simulate_move, simulate_val, Intersection, Zobrist, BLACK, WHITE};

fn stone_color(p: &Intersection) -> usize {
    match p {
        Intersection::Empty => 0,
        Intersection::Black(_) => 1,
        Intersection::White(_) => 2,
    }
}

#[test]
fn surrounded_stone_is_captured() {
    let mut board = empty_board();
    assert_eq!(simulate_move(4, 4, WHITE, &mut board), vec![]);
    assert_eq!(simulate_move(3, 4, BLACK, &mut board), vec![]);
    assert_eq!(simulate_move(5, 4, BLACK, &mut board), vec![]);
    assert_eq!(simulate_move(4, 3, BLACK, &mut board), vec![]);
    assert_eq!(simulate_move(4, 5, BLACK, &mut board), vec![(4, 4)]);
    assert_eq!(stone_color(&board[4][4]), 0);
    assert_eq!(stone_color(&board[4][5]), 1);
}

#[test]
fn eye_without_capture_is_suicide() {
    let mut board = empty_board();
    simulate_move(3, 4, BLACK, &mut board);
    simulate_move(5, 4, BLACK, &mut board);
    simulate_move(4, 3, BLACK, &mut board);
    simulate_move(4, 5, BLACK, &mut board);
    assert!(!simulate_val(4, 4, WHITE, board.clone(), Zobrist::new()));
    assert!(simulate_val(4, 4, BLACK, board.clone(), Zobrist::new()));
    assert!(simulate_val(10, 10, WHITE, board, Zobrist::new()));
}
