use goban::go::{
    copy_board, copy_point, empty_board, empty_board_of, get_intersections, get_liberties, is_sound, simulate_ko,
    simulate_move, Group, Intersection, Zobrist, BLACK, EMPTY, WHITE,
};

fn group_of(board: &Vec<Vec<Intersection>>, x: usize, y: usize) -> Group {
    match &board[x][y] {
        Intersection::Black(g) => g.clone(),
        Intersection::White(g) => g.clone(),
        Intersection::Empty => panic!("no stone at ({}, {})", x, y),
    }
}

fn blank() -> Group {
    Group { intersections: vec![], liberties: vec![] }
}

#[test]
fn colour_numbers() {
    assert_eq!((EMPTY, BLACK, WHITE), (0, 1, 2));
}

#[test]
fn empty_board_is_nineteen_by_nineteen() {
    let board = empty_board();
    assert_eq!(board.len(), 19);
    for row in &board {
        assert_eq!(row.len(), 19);
        for point in row {
            assert_eq!(*point, Intersection::Empty);
        }
    }
    assert!(is_sound(&board));
}

#[test]
fn flood_fill_finds_the_connected_group() {
    let mut board = empty_board();
    for &(x, y) in &[(2, 2), (2, 3), (3, 3), (5, 5), (3, 4)] {
        board[x][y] = Intersection::Black(blank());
    }
    // A diagonal neighbour and a white neighbour do not belong to the group.
    board[4][5] = Intersection::Black(blank());
    board[1][2] = Intersection::White(blank());
    get_intersections(2, 2, BLACK, &mut board);
    let expected = vec![(2, 2), (2, 3), (3, 3), (3, 4)];
    for &(x, y) in &expected {
        assert_eq!(group_of(&board, x, y).intersections, expected);
    }
    assert_eq!(group_of(&board, 5, 5).intersections, vec![]);
    assert_eq!(group_of(&board, 4, 5).intersections, vec![]);
    assert_eq!(group_of(&board, 1, 2).intersections, vec![]);
}

#[test]
fn flood_fill_of_another_colour_changes_nothing() {
    let mut board = empty_board();
    board[2][2] = Intersection::Black(blank());
    let before = board.clone();
    get_intersections(2, 2, WHITE, &mut board);
    assert_eq!(board, before);
    get_intersections(7, 7, BLACK, &mut board);
    assert_eq!(board, before);
}

#[test]
fn liberties_are_the_empty_neighbours_of_the_group() {
    let mut board = empty_board();
    simulate_move(0, 0, BLACK, &mut board);
    simulate_move(0, 1, BLACK, &mut board);
    simulate_move(1, 0, WHITE, &mut board);
    get_liberties(0, 0, BLACK, &mut board);
    assert_eq!(group_of(&board, 0, 0).intersections, vec![(0, 0), (0, 1)]);
    assert_eq!(group_of(&board, 0, 0).liberties, vec![(0, 2), (1, 1)]);
    assert_eq!(group_of(&board, 0, 1).liberties, vec![(0, 2), (1, 1)]);
    get_liberties(1, 0, WHITE, &mut board);
    assert_eq!(group_of(&board, 1, 0).liberties, vec![(1, 1), (2, 0)]);
}

#[test]
fn liberties_twice_is_liberties_once() {
    let mut board = empty_board();
    simulate_move(4, 4, BLACK, &mut board);
    simulate_move(4, 5, BLACK, &mut board);
    simulate_move(3, 4, WHITE, &mut board);
    get_liberties(4, 4, BLACK, &mut board);
    let once = board.clone();
    get_liberties(4, 4, BLACK, &mut board);
    assert_eq!(board, once);
    assert_eq!(group_of(&board, 4, 4).liberties, vec![(3, 5), (4, 3), (4, 6), (5, 4), (5, 5)]);
}

#[test]
fn liberties_of_an_empty_point_change_nothing() {
    let mut board = empty_board();
    simulate_move(4, 4, BLACK, &mut board);
    let before = board.clone();
    get_liberties(9, 9, BLACK, &mut board);
    assert_eq!(board, before);
}

#[test]
fn liberties_pass_the_colour_filter() {
    let mut board = empty_board();
    simulate_move(4, 4, BLACK, &mut board);
    simulate_move(3, 4, WHITE, &mut board);
    let before = board.clone();
    // Asking for white liberties at a black stone writes to no black stone.
    get_liberties(4, 4, WHITE, &mut board);
    assert_eq!(board, before);
    get_liberties(4, 4, BLACK, &mut board);
    assert_eq!(group_of(&board, 4, 4).liberties, vec![(4, 3), (4, 5), (5, 4)]);
}

#[test]
fn a_move_records_group_and_liberties() {
    let mut board = empty_board();
    assert_eq!(simulate_move(0, 0, WHITE, &mut board), vec![]);
    let corner = group_of(&board, 0, 0);
    assert_eq!(corner.intersections, vec![(0, 0)]);
    assert_eq!(corner.liberties, vec![(0, 1), (1, 0)]);
    assert!(is_sound(&board));
}

#[test]
fn a_group_of_two_is_captured_whole() {
    let mut board = empty_board();
    simulate_move(0, 0, WHITE, &mut board);
    simulate_move(0, 1, WHITE, &mut board);
    simulate_move(1, 0, BLACK, &mut board);
    simulate_move(1, 1, BLACK, &mut board);
    assert_eq!(simulate_move(0, 2, BLACK, &mut board), vec![(0, 0), (0, 1)]);
    assert_eq!(board[0][0], Intersection::Empty);
    assert_eq!(board[0][1], Intersection::Empty);
}

#[test]
fn a_group_next_to_two_sides_of_the_stone_is_listed_once() {
    let mut board = empty_board();
    // White stones at (0, 1), (1, 1) and (1, 0) form one group round the corner.
    simulate_move(0, 1, WHITE, &mut board);
    simulate_move(1, 1, WHITE, &mut board);
    simulate_move(1, 0, WHITE, &mut board);
    simulate_move(0, 2, BLACK, &mut board);
    simulate_move(1, 2, BLACK, &mut board);
    simulate_move(2, 1, BLACK, &mut board);
    simulate_move(2, 0, BLACK, &mut board);
    // The corner is the group's last liberty and touches it on two sides.
    let removed = simulate_move(0, 0, BLACK, &mut board);
    assert_eq!(removed, vec![(0, 1), (1, 0), (1, 1)]);
    assert_eq!(board[0][1], Intersection::Empty);
    assert_eq!(board[1][0], Intersection::Empty);
    assert_eq!(board[1][1], Intersection::Empty);
    assert!(matches!(board[0][0], Intersection::Black(_)));
}

#[test]
fn two_groups_taken_by_one_stone_are_listed_in_row_major_order() {
    let mut board = empty_board();
    // A white stone below (1, 1) and one above it, each with one liberty left at (1, 1).
    simulate_move(2, 1, WHITE, &mut board);
    simulate_move(0, 1, WHITE, &mut board);
    simulate_move(0, 0, BLACK, &mut board);
    simulate_move(0, 2, BLACK, &mut board);
    simulate_move(2, 0, BLACK, &mut board);
    simulate_move(2, 2, BLACK, &mut board);
    simulate_move(3, 1, BLACK, &mut board);
    assert_eq!(simulate_move(1, 1, BLACK, &mut board), vec![(0, 1), (2, 1)]);
}

#[test]
fn soundness_check_finds_broken_boards() {
    let mut board = empty_board();
    simulate_move(3, 3, BLACK, &mut board);
    assert!(is_sound(&board));
    let mut stray = board.clone();
    stray[3][3] = Intersection::Black(Group { intersections: vec![(3, 3), (19, 0)], liberties: vec![] });
    assert!(!is_sound(&stray));
    let mut orphan = board.clone();
    orphan[3][3] = Intersection::Black(Group { intersections: vec![(3, 4)], liberties: vec![] });
    assert!(!is_sound(&orphan));
    let mut short = board.clone();
    short.pop();
    assert!(!is_sound(&short));
    let mut narrow = board.clone();
    narrow[7].pop();
    assert!(!is_sound(&narrow));
}

#[test]
fn copies_are_equal() {
    let mut board = empty_board();
    simulate_move(3, 3, BLACK, &mut board);
    simulate_move(3, 4, WHITE, &mut board);
    assert_eq!(copy_board(&board), board);
    assert_eq!(copy_point(&board[3][3]), board[3][3]);
    assert_eq!(copy_point(&board[0][0]), Intersection::Empty);
}

#[test]
fn ko_check_leaves_the_board_alone() {
    let mut board = empty_board();
    simulate_move(3, 3, BLACK, &mut board);
    let before = board.clone();
    let mut hash = Zobrist::new();
    assert!(simulate_ko(3, 4, WHITE, &board, &mut hash));
    assert_eq!(board, before);
    // The same outcome a second time is a repeat.
    assert!(!simulate_ko(3, 4, WHITE, &board, &mut hash));
}

#[test]
fn the_small_board_ends_at_its_ninth_line() {
    let mut board = empty_board_of(9);
    assert_eq!(board.len(), 9);
    assert_eq!(board[0].len(), 9);
    assert!(is_sound(&board));
    simulate_move(8, 8, BLACK, &mut board);
    assert_eq!(group_of(&board, 8, 8).liberties, vec![(7, 8), (8, 7)]);
    simulate_move(7, 8, WHITE, &mut board);
    assert_eq!(simulate_move(8, 7, WHITE, &mut board), vec![(8, 8)]);
    assert_eq!(board[8][8], Intersection::Empty);
    assert!(is_sound(&board));
}

#[test]
fn boards_of_other_sizes_are_not_sound() {
    assert!(!is_sound(&empty_board_of(13)));
    assert!(!is_sound(&empty_board_of(0)));
    assert!(is_sound(&empty_board_of(19)));
}

#[test]
fn a_stone_on_the_full_board_has_liberties_beyond_the_ninth_line() {
    let mut board = empty_board();
    simulate_move(8, 8, BLACK, &mut board);
    assert_eq!(group_of(&board, 8, 8).liberties, vec![(7, 8), (8, 7), (8, 9), (9, 8)]);
}
