use goban::game::{Game, Node, Saved};
use goban::go::{empty_board, simulate_move, Zobrist, BLACK, WHITE};

#[test]
fn new_node_has_no_children() {
    let node = Node::new(empty_board(), (3, 4), WHITE, Some(0));
    match &node {
        Node::Move { board, piece, color, parent, children } => {
            assert_eq!(*board, empty_board());
            assert_eq!(*piece, (3, 4));
            assert_eq!(*color, WHITE);
            assert_eq!(*parent, Some(0));
            assert!(children.is_empty());
        }
        Node::End { .. } => panic!("a move was asked for"),
    }
    assert_eq!(node.get_board(), empty_board());
    assert_eq!(node.last_child(), None);
}

#[test]
fn end_node_keeps_its_parts() {
    let mut board = empty_board();
    simulate_move(1, 1, BLACK, &mut board);
    let node = Node::end(board.clone(), (1, 1), BLACK, Some(2));
    match &node {
        Node::End { board: b, piece, color, parent } => {
            assert_eq!(*b, board);
            assert_eq!(*piece, (1, 1));
            assert_eq!(*color, BLACK);
            assert_eq!(*parent, Some(2));
        }
        Node::Move { .. } => panic!("an end was asked for"),
    }
    assert_eq!(node.get_board(), board);
    assert_eq!(node.last_child(), None);
}

#[test]
fn new_game_is_the_root_alone() {
    let game = Game::new();
    assert_eq!(game.nodes.len(), 1);
    assert_eq!(game.root, 0);
    assert_eq!(game.curr, 0);
    assert!(game.states.is_empty());
    assert_eq!(game.nodes[0].get_board(), empty_board());
    assert!(matches!(&game.nodes[0], Node::Move { parent: None, .. }));
    assert_eq!(game.to_sgf(), "(;FF[4]GM[1]SZ[19])");
}

#[test]
fn add_node_appends_a_child_and_moves_the_cursor() {
    let mut game = Game::new();
    let mut board = empty_board();
    simulate_move(2, 3, BLACK, &mut board);
    game.add_node(board.clone(), (2, 3), BLACK);
    assert_eq!(game.curr, 1);
    assert_eq!(game.nodes[0].last_child(), Some(1));
    assert!(matches!(&game.nodes[1], Node::Move { parent: Some(0), .. }));
    assert_eq!(game.nodes[1].get_board(), board);
    // A second move from the root is a new variation beside the first.
    game.curr = 0;
    game.add_node(board.clone(), (5, 5), WHITE);
    assert_eq!(game.curr, 2);
    match &game.nodes[0] {
        Node::Move { children, .. } => assert_eq!(*children, vec![1, 2]),
        Node::End { .. } => panic!("the root is a move"),
    }
    assert_eq!(game.to_sgf(), "(;FF[4]GM[1]SZ[19](;B[cd];)(;W[ff];))");
}

#[test]
fn nested_variations_are_written_in_order() {
    let mut game = Game::new();
    let board = empty_board();
    game.add_node(board.clone(), (0, 0), BLACK);
    game.add_node(board.clone(), (1, 1), WHITE);
    game.add_node(board.clone(), (2, 2), BLACK);
    game.curr = 2;
    game.add_node(board.clone(), (3, 3), BLACK);
    game.curr = 1;
    game.add_node(board.clone(), (4, 4), WHITE);
    assert_eq!(
        game.to_sgf(),
        "(;FF[4]GM[1]SZ[19];B[aa](;W[bb](;B[cc];)(;B[dd];))(;W[ee];))"
    );
}

#[test]
fn end_nodes_are_written_without_a_closing_semicolon() {
    let mut game = Game::new();
    game.add_node(empty_board(), (0, 0), BLACK);
    game.nodes.push(Node::end(empty_board(), (1, 2), WHITE, Some(1)));
    match &mut game.nodes[1] {
        Node::Move { children, .. } => children.push(2),
        Node::End { .. } => panic!("the first move is a move"),
    }
    assert_eq!(game.to_sgf(), "(;FF[4]GM[1]SZ[19];B[aa];W[bc])");
}

#[test]
fn save_state_keeps_board_cursor_and_root() {
    let mut game = Game::new();
    let mut board = empty_board();
    simulate_move(2, 3, BLACK, &mut board);
    game.add_node(board.clone(), (2, 3), BLACK);
    game.save_state(board.clone(), Zobrist::new());
    assert_eq!(game.states.len(), 1);
    assert_eq!(game.states[0].0, board);
    assert_eq!(game.states[0].1, 1);
    assert_eq!(game.states[0].2, 0);
}

#[test]
fn saved_holds_record_and_states() {
    let mut game = Game::new();
    let mut board = empty_board();
    simulate_move(2, 3, BLACK, &mut board);
    game.add_node(board.clone(), (2, 3), BLACK);
    let hash = Zobrist::new();
    let key = hash.current_hash();
    game.save_state(board.clone(), hash);
    let saved = Saved::new(&game);
    assert_eq!(saved.sgf, "(;FF[4]GM[1]SZ[19];B[cd];)");
    assert_eq!(saved.states.len(), 1);
    assert_eq!(saved.states[0].0, board);
    assert_eq!(saved.states[0].1.current_hash(), key);
    assert!(saved.fits(19));
    assert!(!saved.fits(9));
}

#[test]
fn add_states_binds_each_state_to_the_node_with_its_board() {
    let mut game = Game::new();
    let mut first = empty_board();
    simulate_move(2, 3, BLACK, &mut first);
    game.add_node(first.clone(), (2, 3), BLACK);
    let mut second = first.clone();
    simulate_move(4, 4, WHITE, &mut second);
    game.add_node(second.clone(), (4, 4), WHITE);
    let mut elsewhere = empty_board();
    simulate_move(9, 9, BLACK, &mut elsewhere);
    game.save_state(second.clone(), Zobrist::new());
    let saved = Saved {
        sgf: String::new(),
        states: vec![
            (first.clone(), Zobrist::new()),
            (elsewhere.clone(), Zobrist::new()),
            (empty_board(), Zobrist::new()),
            (first.clone(), Zobrist::new()),
        ],
    };
    game.add_states(saved);
    assert_eq!(game.states.len(), 5);
    // The state that was there stays in front.
    assert_eq!(game.states[0].1, 2);
    // Each new state stands behind it, bound to the node that shows its board.
    assert_eq!((game.states[1].0 == first, game.states[1].1, game.states[1].2), (true, 1, 0));
    // No node shows this board: the state is bound to the cursor.
    assert_eq!((game.states[2].0 == elsewhere, game.states[2].1), (true, 2));
    assert_eq!(game.states[3].1, 0);
    assert_eq!(game.states[4].1, 1);
    assert_eq!(game.curr, 2);
    assert_eq!(game.nodes.len(), 3);
}

#[test]
fn add_states_takes_the_last_node_of_the_walk() {
    let mut game = Game::new();
    let mut board = empty_board();
    simulate_move(2, 3, BLACK, &mut board);
    // Two variations that show the same board; a third, added between them
    // in the arena, hangs below the first.
    game.add_node(board.clone(), (2, 3), BLACK);
    game.add_node(empty_board(), (7, 7), WHITE);
    game.curr = 0;
    game.add_node(board.clone(), (2, 3), BLACK);
    game.curr = 1;
    game.add_node(board.clone(), (8, 8), WHITE);
    // The walk meets the nodes in the order 0, 1, 2, 4, 3.
    game.add_states(Saved { sgf: String::new(), states: vec![(board.clone(), Zobrist::new())] });
    assert_eq!(game.states[0].1, 3);
}

#[test]
fn a_game_on_the_small_board() {
    let mut game = Game::of_size(9);
    assert_eq!(game.size(), 9);
    assert_eq!(game.to_sgf(), "(;FF[4]GM[1]SZ[9])");
    let mut board = goban::go::empty_board_of(9);
    simulate_move(8, 8, BLACK, &mut board);
    game.add_node(board, (8, 8), BLACK);
    assert_eq!(game.to_sgf(), "(;FF[4]GM[1]SZ[9];B[ii];)");
    assert_eq!(Game::new().size(), 19);
}
