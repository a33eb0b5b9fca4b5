//! One running game: the live board, the hasher and the move tree, and the
//! operations that a caller issues one at a time.

use vstd::prelude::*;
use crate::akin::{legal, verdict};
use crate::capture::{captured, moved};
use crate::cells::{is_valid_size, valid_size, COLS, ROWS};
use crate::game::{node_ok, state_ok, with_states, Game, GameView, Node, Saved};
use crate::go::{
    copy_board, empty_board_of, empty_grid, grid, judge, simulate_move, simulate_val, sound, Board,
    GoError, Grid, Tree, Zobrist, ZobristView, BLACK, WHITE,
};
use crate::report::{added_list, diff_boards, list_stones, removed_list, stones_list};
use crate::sgf::{chars_of, parse, parse_sgf, sgf_text};

verus! {

/// One running game. Its parts are reached through its operations alone,
/// so that a game that was well-formed when it was made stays so.
#[derive(Debug)]
pub struct Session {
    board: Board,
    hash: crate::go::Hash,
    tree: Tree,
}

/// Mathematical value of a [`Session`].
pub struct SessionView {
    pub board: Grid,
    pub hash: ZobristView,
    pub tree: GameView,
}

impl View for Session {
    type V = SessionView;

    closed spec fn view(&self) -> SessionView {
        SessionView {
            board: grid(&self.board.pieces),
            hash: self.hash.zobrist@,
            tree: self.tree.game@,
        }
    }
}

impl SessionView {
    /// The live board is sound, the hasher and the tree are well-formed,
    /// all three are of one size, and every node of the tree is a move: a
    /// game is made of moves that were applied, and none of them ends a line.
    pub open spec fn wf(self) -> bool {
        &&& sound(self.board)
        &&& self.hash.wf()
        &&& self.tree.wf()
        &&& self.tree.all_moves()
        &&& self.board.len() == self.tree.size()
        &&& self.hash.board.len() == self.tree.size()
    }

    /// The number of rows, and of columns, of the board of the game.
    pub open spec fn size(self) -> nat {
        self.board.len()
    }

    /// A new game on a board of `n` rows and `n` columns whose hasher has
    /// the given keys.
    pub open spec fn initial(keys: [[[u64; 3]; COLS]; ROWS], n: nat) -> SessionView {
        SessionView {
            board: empty_grid(n),
            hash: ZobristView::initial(keys, n),
            tree: GameView::initial(n),
        }
    }

    /// The game after a move was applied: the board after the move, the
    /// hasher asked to take that board in, and the move added to the tree
    /// at the cursor.
    pub open spec fn applied(self, x: usize, y: usize, color: usize) -> SessionView {
        let after = moved(self.board, x, y, color);
        SessionView {
            board: after,
            hash: self.hash.updated(after),
            tree: self.tree.added(after, (x, y), color),
        }
    }

    /// The game after a move went through validation and, if legal, was applied.
    pub open spec fn played(self, m: (usize, usize, usize)) -> SessionView {
        if legal(self.board, self.hash, m.0, m.1, m.2) {
            self.applied(m.0, m.1, m.2)
        } else {
            self
        }
    }

    /// The game after the first `n` of the moves were played in turn.
    pub open spec fn replayed(self, moves: Seq<(usize, usize, usize)>, n: int) -> SessionView
        decreases n,
    {
        if n <= 0 {
            self
        } else {
            self.replayed(moves, n - 1).played(moves[n - 1])
        }
    }

    /// The game with the cursor on the node `to`: the live board becomes
    /// that node's board where the node is a move.
    pub open spec fn stepped(self, to: usize) -> SessionView {
        SessionView {
            board: if self.tree.nodes[to as int] is Move {
                self.tree.nodes[to as int].board()
            } else {
                self.board
            },
            tree: GameView { curr: to, ..self.tree },
            ..self
        }
    }

    /// What a step to the node `to` reports as added.
    pub open spec fn step_added(self, to: usize) -> Seq<(usize, usize, usize)> {
        if self.tree.nodes[to as int] is Move {
            added_list(self.tree.nodes[to as int].board(), self.board)
        } else {
            Seq::empty()
        }
    }

    /// What a step to the node `to` reports as removed.
    pub open spec fn step_removed(self, to: usize) -> Seq<(usize, usize)> {
        if self.tree.nodes[to as int] is Move {
            removed_list(self.tree.nodes[to as int].board(), self.board)
        } else {
            Seq::empty()
        }
    }

    /// Where an undo leads: to the parent of the cursor, if the cursor is a
    /// move that has one.
    pub open spec fn undo_goal(self) -> Option<usize> {
        let n = self.tree.nodes[self.tree.curr as int];
        if n is Move {
            n.parent()
        } else {
            None
        }
    }

    /// Where a redo leads: to the last child of the cursor, if it has one.
    pub open spec fn redo_goal(self) -> Option<usize> {
        let n = self.tree.nodes[self.tree.curr as int];
        if n.children().len() > 0 {
            Some(n.children().last())
        } else {
            None
        }
    }

    /// The game after an undo.
    pub open spec fn undone(self) -> SessionView {
        match self.undo_goal() {
            Some(p) => self.stepped(p),
            None => self,
        }
    }

    /// The game after a redo.
    pub open spec fn redone(self) -> SessionView {
        match self.redo_goal() {
            Some(c) => self.stepped(c),
            None => self,
        }
    }

    /// The game after the live board and the hasher were saved.
    pub open spec fn saved(self) -> SessionView {
        SessionView { tree: self.tree.saved(self.board, self.hash), ..self }
    }

    /// The game after a return to the saved state `idx`: unchanged where
    /// there is no such state, else with that state's board, cursor and root.
    pub open spec fn reverted(self, idx: usize) -> SessionView {
        if idx < self.tree.states.len() {
            let s = self.tree.states[idx as int];
            SessionView { board: s.0, tree: GameView { curr: s.1, root: s.2, ..self.tree }, ..self }
        } else {
            self
        }
    }
}

/// A step along the tree keeps the game well-formed.
pub proof fn lemma_stepped_wf(s: SessionView, to: usize)
    requires
        s.wf(),
        to < s.tree.nodes.len(),
    ensures
        s.stepped(to).wf(),
{
    assert(node_ok(s.tree.nodes, to as int));
}

/// An applied move keeps the game well-formed.
pub proof fn lemma_applied_wf(s: SessionView, x: usize, y: usize, color: usize)
    requires
        s.wf(),
        x < s.size(),
        y < s.size(),
        color == BLACK || color == WHITE,
        s.tree.nodes.len() < usize::MAX,
    ensures
        s.applied(x, y, color).wf(),
{
    crate::capture::lemma_moved_sound(s.board, x, y, color);
    crate::game::lemma_added_wf(s.tree, moved(s.board, x, y, color), (x, y), color);
}

impl Session {
    /// A new game on the full board: the empty board, a hasher with keys
    /// drawn at random, and a tree that holds the root alone.
    pub fn new() -> (s: Session)
        ensures
            s@ == SessionView::initial(s@.hash.keys, ROWS as nat),
            s@.wf(),
    {
        Session::sized(ROWS)
    }

    /// A new game on a board of `size` rows and `size` columns, if there
    /// are boards of that size: boards are small, of nine rows, or full, of
    /// nineteen.
    pub fn with_size(size: usize) -> (r: Option<Session>)
        ensures
            r is Some == valid_size(size as nat),
            r is Some ==> r->0@ == SessionView::initial(r->0@.hash.keys, size as nat) && r->0@.wf(),
    {
        if is_valid_size(size) {
            Some(Session::sized(size))
        } else {
            None
        }
    }

    /// A new game on a board of `size` rows and `size` columns.
    fn sized(size: usize) -> (s: Session)
        requires
            valid_size(size as nat),
        ensures
            s@ == SessionView::initial(s@.hash.keys, size as nat),
            s@.wf(),
    {
        let s = Session {
            board: Board { pieces: empty_board_of(size) },
            hash: crate::go::Hash { zobrist: Zobrist::of_size(size) },
            tree: Tree { game: Game::of_size(size) },
        };
        proof {
            crate::game::lemma_empty_sound(size as nat);
        }
        s
    }

    /// The number of rows, and of columns, of the board of the game.
    pub fn size(&self) -> (n: usize)
        requires
            self@.wf(),
        ensures
            n == self@.size(),
            valid_size(n as nat),
    {
        self.board.pieces.len()
    }

    /// The live board.
    pub fn board(&self) -> (b: &Board)
        ensures
            grid(&b.pieces) == self@.board,
    {
        &self.board
    }

    /// The hasher.
    pub fn hash(&self) -> (h: &crate::go::Hash)
        ensures
            h.zobrist@ == self@.hash,
    {
        &self.hash
    }

    /// The move tree.
    pub fn tree(&self) -> (t: &Tree)
        ensures
            t.game@ == self@.tree,
    {
        &self.tree
    }

    /// Clears the board and replaces the hasher by one with new keys drawn
    /// at random. The tree stays as it is, and so does the size of the board.
    pub fn reset(&mut self)
        requires
            old(self)@.wf(),
        ensures
            final(self)@.board == empty_grid(old(self)@.size()),
            final(self)@.hash == ZobristView::initial(final(self)@.hash.keys, old(self)@.size()),
            final(self)@.tree == old(self)@.tree,
            final(self)@.wf(),
            final(self)@.size() == old(self)@.size(),
    {
        let size = self.board.pieces.len();
        self.board.pieces = empty_board_of(size);
        self.hash.zobrist = Zobrist::of_size(size);
        proof {
            crate::game::lemma_empty_sound(size as nat);
        }
    }

    /// Whether a move is legal. The check works on copies of the board and
    /// the hasher: the game stays as it is.
    pub fn validate(&self, x: usize, y: usize, color: usize) -> (ok: bool)
        requires
            self@.wf(),
        ensures
            ok == legal(self@.board, self@.hash, x, y, color),
    {
        simulate_val(x, y, color, copy_board(&self.board.pieces), self.hash.zobrist.duplicate())
    }

    /// What speaks against a move of a real colour, if anything does. The
    /// check works on copies of the board and the hasher.
    pub fn check_move(&self, x: usize, y: usize, color: usize) -> (r: Result<(), GoError>)
        requires
            self@.wf(),
            color == BLACK || color == WHITE,
        ensures
            r == verdict(self@.board, self@.hash, x, y, color),
    {
        judge(x, y, color, copy_board(&self.board.pieces), self.hash.zobrist.duplicate())
    }

    /// Applies a move without asking whether it is legal: that is the
    /// caller's part. The stone is placed and the captured stones are taken
    /// off; the hasher is asked to take the new board in; the new board
    /// becomes a new child of the cursor, and the cursor moves to it.
    /// Returns the stones taken off, each once, in row-major order.
    pub fn apply_move(&mut self, x: usize, y: usize, color: usize) -> (removed: Vec<(usize, usize)>)
        requires
            old(self)@.wf(),
            x < old(self)@.size(),
            y < old(self)@.size(),
            color == BLACK || color == WHITE,
        ensures
            final(self)@ == old(self)@.applied(x, y, color),
            removed@ == captured(old(self)@.board, x, y, color),
            removed@.no_duplicates(),
            final(self)@.wf(),
            final(self)@.size() == old(self)@.size(),
    {
        let removed = simulate_move(x, y, color, &mut self.board.pieces);
        let _ = self.hash.zobrist.update(&self.board.pieces);
        self.tree.game.add_node(copy_board(&self.board.pieces), (x, y), color);
        removed
    }

    /// Moves the cursor to the node `to` and shows that node's board.
    /// Returns what was added and what was removed.
    fn step_to(&mut self, to: usize) -> (r: (Vec<(usize, usize, usize)>, Vec<(usize, usize)>))
        requires
            old(self)@.wf(),
            to < old(self).tree.game.nodes.len(),
        ensures
            final(self)@ == old(self)@.stepped(to),
            r.0@ == old(self)@.step_added(to),
            r.1@ == old(self)@.step_removed(to),
            final(self)@.wf(),
            final(self)@.size() == old(self)@.size(),
    {
        proof {
            lemma_stepped_wf(self@, to);
            assert(node_ok(self@.tree.nodes, to as int));
            assert(self@.tree.nodes[to as int] == self.tree.game.nodes@[to as int]@);
        }
        let ghost before = self@;
        let mut added: Vec<(usize, usize, usize)> = Vec::new();
        let mut removed: Vec<(usize, usize)> = Vec::new();
        match &self.tree.game.nodes[to] {
            Node::Move { board, .. } => {
                let r = diff_boards(board, &self.board.pieces);
                added = r.0;
                removed = r.1;
                self.board.pieces = copy_board(board);
            },
            Node::End { .. } => {},
        }
        self.tree.game.curr = to;
        proof {
            assert(self@.tree.nodes =~= before.tree.nodes);
            assert(self@.tree.states =~= before.tree.states);
        }
        (added, removed)
    }

    /// Goes back one move: the cursor moves to the parent of the current
    /// node and the live board becomes the parent's board. Returns the
    /// points that came to hold a stone, each with its colour, and the
    /// points that became empty. At the root nothing happens and both lists
    /// are empty.
    pub fn undo(&mut self) -> (r: (Vec<(usize, usize, usize)>, Vec<(usize, usize)>))
        requires
            old(self)@.wf(),
        ensures
            final(self)@ == old(self)@.undone(),
            final(self)@.wf(),
            final(self)@.size() == old(self)@.size(),
            match old(self)@.undo_goal() {
                Some(p) => r.0@ == old(self)@.step_added(p) && r.1@ == old(self)@.step_removed(p),
                None => r.0@ == Seq::<(usize, usize, usize)>::empty() && r.1@ == Seq::<
                    (usize, usize),
                >::empty(),
            },
    {
        let at = self.tree.game.curr;
        proof {
            assert(node_ok(self@.tree.nodes, at as int));
            assert(self@.tree.nodes[at as int] == self.tree.game.nodes@[at as int]@);
        }
        let goal = match &self.tree.game.nodes[at] {
            Node::Move { parent, .. } => *parent,
            Node::End { .. } => None,
        };
        match goal {
            Some(p) => {
                assert(node_ok(self@.tree.nodes, 0));
                self.step_to(p)
            },
            None => (Vec::new(), Vec::new()),
        }
    }

    /// Goes forward one move, into the variation that was added last: the
    /// cursor moves to the last child of the current node and the live
    /// board becomes that child's board. Returns the points that came to
    /// hold a stone, each with its colour, and the points that became
    /// empty. Where the current node has no child nothing happens and both
    /// lists are empty.
    pub fn redo(&mut self) -> (r: (Vec<(usize, usize, usize)>, Vec<(usize, usize)>))
        requires
            old(self)@.wf(),
        ensures
            final(self)@ == old(self)@.redone(),
            final(self)@.wf(),
            final(self)@.size() == old(self)@.size(),
            match old(self)@.redo_goal() {
                Some(c) => r.0@ == old(self)@.step_added(c) && r.1@ == old(self)@.step_removed(c),
                None => r.0@ == Seq::<(usize, usize, usize)>::empty() && r.1@ == Seq::<
                    (usize, usize),
                >::empty(),
            },
    {
        let at = self.tree.game.curr;
        proof {
            assert(node_ok(self@.tree.nodes, at as int));
            assert(self@.tree.nodes[at as int] == self.tree.game.nodes@[at as int]@);
        }
        let goal = self.tree.game.nodes[at].last_child();
        match goal {
            Some(c) => {
                assert(self@.tree.nodes[at as int].children()[self@.tree.nodes[at as int].children().len()
                    - 1] == c);
                self.step_to(c)
            },
            None => (Vec::new(), Vec::new()),
        }
    }

    /// Saves the live board and the hasher with the cursor. The new state's
    /// number is the number of states saved before.
    pub fn save_state(&mut self)
        requires
            old(self)@.wf(),
        ensures
            final(self)@ == old(self)@.saved(),
            final(self)@.wf(),
            final(self)@.size() == old(self)@.size(),
    {
        self.tree.game.save_state(copy_board(&self.board.pieces), self.hash.zobrist.duplicate());
    }

    /// The number of saved states.
    pub fn init_states(&self) -> (n: usize)
        ensures
            n == self@.tree.states.len(),
    {
        self.tree.game.states.len()
    }

    /// Returns to a saved state: the live board, the cursor and the root
    /// become those of the state, and every stone of the board is reported,
    /// with its colour. Where no state has the number `state_idx`, nothing
    /// changes and the report is empty.
    pub fn revert_state(&mut self, state_idx: usize) -> (added: Vec<(usize, usize, usize)>)
        requires
            old(self)@.wf(),
        ensures
            final(self)@ == old(self)@.reverted(state_idx),
            final(self)@.wf(),
            final(self)@.size() == old(self)@.size(),
            added@ == if state_idx < old(self)@.tree.states.len() {
                stones_list(final(self)@.board)
            } else {
                Seq::empty()
            },
    {
        if state_idx >= self.tree.game.states.len() {
            return Vec::new();
        }
        let ghost before = self@;
        proof {
            assert(state_ok(
                before.tree.nodes.len(),
                before.tree.size(),
                before.tree.states[state_idx as int],
            ));
            assert(before.tree.states[state_idx as int] == crate::game::state_view(
                self.tree.game.states@[state_idx as int],
            ));
        }
        let board = copy_board(&self.tree.game.states[state_idx].0);
        let curr = self.tree.game.states[state_idx].1;
        let root = self.tree.game.states[state_idx].2;
        self.board.pieces = board;
        self.tree.game.curr = curr;
        self.tree.game.root = root;
        proof {
            assert(self@.tree.nodes =~= before.tree.nodes);
            assert(self@.tree.states =~= before.tree.states);
        }
        list_stones(&self.board.pieces)
    }

    /// The record of the game as text.
    pub fn encode_sgf(&self) -> (sgf: String)
        requires
            self@.wf(),
        ensures
            sgf@ == sgf_text(self@.tree),
    {
        self.tree.game.to_sgf()
    }

    /// Plays the moves in turn, each through validation: a move that is not
    /// legal is passed over.
    fn replay(&mut self, moves: &Vec<(usize, usize, usize)>)
        requires
            old(self)@.wf(),
        ensures
            final(self)@ == old(self)@.replayed(moves@, moves.len() as int),
            final(self)@.wf(),
            final(self)@.size() == old(self)@.size(),
    {
        let mut k: usize = 0;
        while k < moves.len()
            invariant
                k <= moves.len(),
                self@.wf(),
                self@.size() == old(self)@.size(),
                self@ == old(self)@.replayed(moves@, k as int),
            decreases moves.len() - k,
        {
            let m = moves[k];
            if self.validate(m.0, m.1, m.2) {
                let _ = self.apply_move(m.0, m.1, m.2);
            }
            k += 1;
        }
    }

    /// Reads a game record and plays its moves onto the game as it stands,
    /// each through validation. Returns the stones of the board afterwards,
    /// each with its colour. A record that cannot be read is refused as a
    /// whole: the game then stays as it is.
    pub fn from_sgf(&mut self, sgf: &str) -> (r: Result<Vec<(usize, usize, usize)>, GoError>)
        requires
            old(self)@.wf(),
        ensures
            final(self)@.wf(),
            final(self)@.size() == old(self)@.size(),
            match r {
                Ok(v) => {
                    let moves = parse(sgf@, old(self)@.size());
                    &&& moves is Ok
                    &&& final(self)@ == old(self)@.replayed(moves->Ok_0, moves->Ok_0.len() as int)
                    &&& v@ == stones_list(final(self)@.board)
                },
                Err(e) => final(self)@ == old(self)@ && parse(sgf@, old(self)@.size()) == Err::<
                    Seq<(usize, usize, usize)>,
                    GoError,
                >(e),
            },
    {
        let text = chars_of(sgf);
        match parse_sgf(&text, self.board.pieces.len()) {
            Err(e) => Err(e),
            Ok(moves) => {
                self.replay(&moves);
                Ok(list_stones(&self.board.pieces))
            },
        }
    }

    /// Reads a game record into a new game on a board of the same size: the
    /// board is cleared, the tree is replaced by a new one, the hasher keeps
    /// its keys and forgets the positions that it has seen, and the moves of
    /// the record are played in turn, each through validation. Returns the
    /// stones of the board afterwards, each with its colour. A record that
    /// cannot be read is refused as a whole: the game then stays as it is.
    pub fn decode_sgf(&mut self, sgf: &str) -> (r: Result<Vec<(usize, usize, usize)>, GoError>)
        requires
            old(self)@.wf(),
        ensures
            final(self)@.wf(),
            final(self)@.size() == old(self)@.size(),
            match r {
                Ok(v) => {
                    let moves = parse(sgf@, old(self)@.size());
                    &&& moves is Ok
                    &&& final(self)@ == SessionView::initial(
                        old(self)@.hash.keys,
                        old(self)@.size(),
                    ).replayed(moves->Ok_0, moves->Ok_0.len() as int)
                    &&& v@ == stones_list(final(self)@.board)
                },
                Err(e) => final(self)@ == old(self)@ && parse(sgf@, old(self)@.size()) == Err::<
                    Seq<(usize, usize, usize)>,
                    GoError,
                >(e),
            },
    {
        let text = chars_of(sgf);
        let size = self.board.pieces.len();
        match parse_sgf(&text, size) {
            Err(e) => Err(e),
            Ok(moves) => {
                self.board.pieces = empty_board_of(size);
                self.hash.zobrist = Zobrist::with_keys(self.hash.zobrist.keys(), size);
                self.tree.game = Game::of_size(size);
                proof {
                    crate::game::lemma_empty_sound(size as nat);
                    lemma_replay_keys(self@, moves@, moves.len() as int);
                }
                self.replay(&moves);
                Ok(list_stones(&self.board.pieces))
            },
        }
    }
}

impl Session {
    /// What is stored of the game: its record as text, and each saved
    /// state's board and hasher.
    pub fn save_game(&self) -> (saved: Saved)
        requires
            self@.wf(),
        ensures
            saved@.sgf == sgf_text(self@.tree),
            saved@.states == Seq::new(
                self@.tree.states.len(),
                |i: int| (self@.tree.states[i].0, self@.tree.states[i].3),
            ),
            saved@.suits(self@.size()),
    {
        Saved::new(&self.tree.game)
    }

    /// Loads a stored game: its record is read into a new game, as by
    /// `decode_sgf`, and its saved states are taken in, each bound to the
    /// node of the new tree whose board is its board. Returns the stones of
    /// the board afterwards, each with its colour. A record that cannot be
    /// read is refused as a whole: the game then stays as it is.
    pub fn load_game(&mut self, saved: Saved) -> (r: Result<Vec<(usize, usize, usize)>, GoError>)
        requires
            old(self)@.wf(),
            saved@.suits(old(self)@.size()),
        ensures
            final(self)@.wf(),
            final(self)@.size() == old(self)@.size(),
            match r {
                Ok(v) => {
                    let moves = parse(saved@.sgf, old(self)@.size());
                    let played = SessionView::initial(
                        old(self)@.hash.keys,
                        old(self)@.size(),
                    ).replayed(moves->Ok_0, moves->Ok_0.len() as int);
                    &&& moves is Ok
                    &&& final(self)@ == (SessionView {
                        tree: with_states(played.tree, saved@.states),
                        ..played
                    })
                    &&& v@ == stones_list(final(self)@.board)
                },
                Err(e) => final(self)@ == old(self)@ && parse(saved@.sgf, old(self)@.size()) == Err::<
                    Seq<(usize, usize, usize)>,
                    GoError,
                >(e),
            },
    {
        match self.decode_sgf(saved.sgf.as_str()) {
            Err(e) => Err(e),
            Ok(stones) => {
                self.tree.game.add_states(saved);
                Ok(stones)
            },
        }
    }
}

/// Playing moves leaves the keys of the hasher as they are.
pub proof fn lemma_replay_keys(s: SessionView, moves: Seq<(usize, usize, usize)>, n: int)
    ensures
        s.replayed(moves, n).hash.keys == s.hash.keys,
    decreases n,
{
    if n > 0 {
        lemma_replay_keys(s, moves, n - 1);
    }
}

} // verus!
