use goban::go::{empty_board, simulate_move, Zobrist, BLACK, WHITE};

fn keys() -> [[[u64; 3]; 19]; 19] {
    let mut keys = [[[0u64; 3]; 19]; 19];
    keys[0][0] = [5, 9, 17];
    keys[0][1] = [3, 6, 12];
    keys[18][18] = [64, 128, 256];
    keys
}

#[test]
fn hash_of_the_empty_board_is_the_xor_of_the_empty_keys() {
    let z = Zobrist::with_keys(keys(), 19);
    assert_eq!(z.current_hash(), 5 ^ 3 ^ 64);
    assert_eq!(z.current_hash(), 70);
    assert_eq!(z.history(), vec![70]);
    assert_eq!(z.keys(), keys());
    assert_eq!(z.remembered(), empty_board());
}

#[test]
fn update_exchanges_the_keys_of_changed_points() {
    let mut z = Zobrist::with_keys(keys(), 19);
    let mut board = empty_board();
    simulate_move(0, 0, BLACK, &mut board);
    assert!(z.update(&board));
    assert_eq!(z.current_hash(), 9 ^ 3 ^ 64);
    simulate_move(18, 18, WHITE, &mut board);
    assert!(z.update(&board));
    assert_eq!(z.current_hash(), 9 ^ 3 ^ 256);
    assert_eq!(z.remembered(), board);
    let mut seen = z.history();
    seen.sort();
    assert_eq!(seen, vec![70, 74, 266]);
}

#[test]
fn update_refuses_a_repeated_position() {
    let mut z = Zobrist::with_keys(keys(), 19);
    let mut board = empty_board();
    simulate_move(0, 0, BLACK, &mut board);
    assert!(z.update(&board));
    assert!(!z.update(&board));
    assert!(!z.update(&empty_board()));
    assert_eq!(z.current_hash(), 9 ^ 3 ^ 64);
    assert_eq!(z.remembered(), board);
    assert_eq!(z.history().len(), 2);
}

#[test]
fn hash_does_not_depend_on_the_order_of_moves() {
    let mut one = empty_board();
    simulate_move(0, 0, BLACK, &mut one);
    simulate_move(0, 1, WHITE, &mut one);
    let mut other = empty_board();
    simulate_move(0, 1, WHITE, &mut other);
    simulate_move(0, 0, BLACK, &mut other);
    let mut a = Zobrist::with_keys(keys(), 19);
    let mut b = Zobrist::with_keys(keys(), 19);
    assert!(a.update(&one));
    assert!(b.update(&other));
    assert_eq!(a.current_hash(), b.current_hash());
    assert_eq!(a.current_hash(), 9 ^ 12 ^ 64);
}

#[test]
fn a_new_hasher_starts_from_the_empty_board() {
    let z = Zobrist::new();
    assert_eq!(z.remembered(), empty_board());
    assert_eq!(z.history(), vec![z.current_hash()]);
    let k = z.keys();
    let mut expected = 0u64;
    for row in k.iter() {
        for cell in row.iter() {
            expected ^= cell[0];
        }
    }
    assert_eq!(z.current_hash(), expected);
}

#[test]
fn keys_are_drawn_afresh() {
    let a = Zobrist::new();
    let b = Zobrist::new();
    assert_ne!(a.keys(), b.keys());
    assert_ne!(a.keys(), [[[0u64; 3]; 19]; 19]);
}

#[test]
fn duplicate_and_restore_keep_the_hasher() {
    let mut z = Zobrist::with_keys(keys(), 19);
    let mut board = empty_board();
    simulate_move(0, 1, BLACK, &mut board);
    assert!(z.update(&board));
    let d = z.duplicate();
    assert_eq!(d.current_hash(), z.current_hash());
    assert_eq!(d.remembered(), z.remembered());
    let r = Zobrist::restore(z.keys(), z.remembered(), &z.history());
    assert_eq!(r.current_hash(), 5 ^ 6 ^ 64);
    let mut seen = r.history();
    seen.sort();
    assert_eq!(seen, vec![67, 70]);
    // The hash of the board is held whether or not the list names it.
    let bare = Zobrist::restore(z.keys(), z.remembered(), &vec![]);
    assert_eq!(bare.history(), vec![67]);
}

#[test]
fn hash_of_a_small_board_leaves_out_what_lies_off_it() {
    let mut keys = keys();
    keys[8][8] = [1024, 2048, 4096];
    keys[9][9] = [7, 7, 7];
    let mut z = Zobrist::with_keys(keys, 9);
    assert_eq!(z.size(), 9);
    // The key of (18, 18) and that of (9, 9) lie off the small board.
    assert_eq!(z.current_hash(), 5 ^ 3 ^ 1024);
    let mut board = goban::go::empty_board_of(9);
    simulate_move(8, 8, WHITE, &mut board);
    assert!(z.update(&board));
    assert_eq!(z.current_hash(), 5 ^ 3 ^ 4096);
    let sized = Zobrist::of_size(9);
    assert_eq!(sized.size(), 9);
    assert_eq!(sized.remembered(), goban::go::empty_board_of(9));
    assert_eq!(Zobrist::new().size(), 19);
}
