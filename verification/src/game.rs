//! The move tree: a game's history with its variations, the cursor into it,
//! the saved states, and the game record as text.

use vstd::prelude::*;
use crate::cells::{in_frame, valid_size, within, ROWS, SMALL};
use crate::sgf::{
    branches_from, branches_text, child_text, header, lemma_branches_split, lemma_stack_push,
    letter, move_text, node_text, sgf_text, stack_text, tail_text, Task,
};
use crate::go::{
    copy_board, empty_board_of, empty_grid, grid, is_grid, sound, Grid, Intersection, Zobrist,
    ZobristView, BLACK,
};
use crate::report::same_board;

verus! {

/// An entry of the move tree. Nodes live in the tree's arena and name each
/// other by their index in it.
#[derive(Debug)]
pub enum Node {
    /// A move: the board after it, where the stone was placed and its
    /// colour, the node it was played from, and the moves played from it, in
    /// the order in which they were added.
    Move {
        board: Vec<Vec<Intersection>>,
        piece: (usize, usize),
        color: usize,
        parent: Option<usize>,
        children: Vec<usize>,
    },
    /// A move that ends a line: no move is played from it.
    End { board: Vec<Vec<Intersection>>, piece: (usize, usize), color: usize, parent: Option<usize> },
}

/// Mathematical value of a [`Node`].
pub enum NodeView {
    Move {
        board: Grid,
        piece: (usize, usize),
        color: usize,
        parent: Option<usize>,
        children: Seq<usize>,
    },
    End { board: Grid, piece: (usize, usize), color: usize, parent: Option<usize> },
}

impl NodeView {
    /// The board after the node's move.
    pub open spec fn board(self) -> Grid {
        match self {
            NodeView::Move { board, .. } => board,
            NodeView::End { board, .. } => board,
        }
    }

    /// Where the node's stone was placed.
    pub open spec fn piece(self) -> (usize, usize) {
        match self {
            NodeView::Move { piece, .. } => piece,
            NodeView::End { piece, .. } => piece,
        }
    }

    /// The colour of the node's stone.
    pub open spec fn color(self) -> usize {
        match self {
            NodeView::Move { color, .. } => color,
            NodeView::End { color, .. } => color,
        }
    }

    /// The node that the move was played from.
    pub open spec fn parent(self) -> Option<usize> {
        match self {
            NodeView::Move { parent, .. } => parent,
            NodeView::End { parent, .. } => parent,
        }
    }

    /// The moves played from the node; none for a node that ends a line.
    pub open spec fn children(self) -> Seq<usize> {
        match self {
            NodeView::Move { children, .. } => children,
            NodeView::End { .. } => Seq::empty(),
        }
    }

    /// The node with one more move played from it; a node that ends a line
    /// stays as it is.
    pub open spec fn with_child(self, c: usize) -> NodeView {
        match self {
            NodeView::Move { board, piece, color, parent, children } => NodeView::Move {
                board,
                piece,
                color,
                parent,
                children: children.push(c),
            },
            NodeView::End { .. } => self,
        }
    }
}

impl View for Node {
    type V = NodeView;

    open spec fn view(&self) -> NodeView {
        match self {
            Node::Move { board, piece, color, parent, children } => NodeView::Move {
                board: grid(board),
                piece: *piece,
                color: *color,
                parent: *parent,
                children: children@,
            },
            Node::End { board, piece, color, parent } => NodeView::End {
                board: grid(board),
                piece: *piece,
                color: *color,
                parent: *parent,
            },
        }
    }
}

impl Node {
    /// A move from which nothing has been played yet.
    pub fn new(board: Vec<Vec<Intersection>>, piece: (usize, usize), color: usize, parent: Option<usize>) -> (n:
        Node)
        ensures
            n@ == (NodeView::Move {
                board: grid(&board),
                piece,
                color,
                parent,
                children: Seq::empty(),
            }),
    {
        Node::Move { board, piece, color, parent, children: Vec::new() }
    }

    /// A move that ends its line.
    pub fn end(board: Vec<Vec<Intersection>>, piece: (usize, usize), color: usize, parent: Option<usize>) -> (n:
        Node)
        ensures
            n@ == (NodeView::End { board: grid(&board), piece, color, parent }),
    {
        Node::End { board, piece, color, parent }
    }

    /// A copy of the board after the node's move.
    pub fn get_board(&self) -> (b: Vec<Vec<Intersection>>)
        ensures
            grid(&b) == self@.board(),
    {
        match self {
            Node::Move { board, .. } => copy_board(board),
            Node::End { board, .. } => copy_board(board),
        }
    }

    /// The move most lately played from the node, if there is one.
    pub fn last_child(&self) -> (c: Option<usize>)
        ensures
            c == if self@.children().len() == 0 {
                None
            } else {
                Some(self@.children().last())
            },
    {
        match self {
            Node::Move { children, .. } => {
                if children.len() == 0 {
                    None
                } else {
                    Some(children[children.len() - 1])
                }
            },
            Node::End { .. } => None,
        }
    }
}

/// A saved state as the tree keeps it: the board, the cursor and the root
/// at the time, and the hasher.
pub open spec fn state_view(s: (Vec<Vec<Intersection>>, usize, usize, Zobrist)) -> (
    Grid,
    usize,
    usize,
    ZobristView,
) {
    (grid(&s.0), s.1, s.2, s.3@)
}

/// The move tree with its cursor and the saved states.
#[derive(Debug)]
pub struct Game {
    /// The arena of nodes; a node's index never changes.
    pub nodes: Vec<Node>,
    /// The index of the root, the placeholder before the first move.
    pub root: usize,
    /// The index of the node that the live board shows.
    pub curr: usize,
    /// The saved states, in the order in which they were saved.
    pub states: Vec<(Vec<Vec<Intersection>>, usize, usize, Zobrist)>,
}

/// Mathematical value of a [`Game`].
pub struct GameView {
    pub nodes: Seq<NodeView>,
    pub root: usize,
    pub curr: usize,
    pub states: Seq<(Grid, usize, usize, ZobristView)>,
}

impl View for Game {
    type V = GameView;

    open spec fn view(&self) -> GameView {
        GameView {
            nodes: Seq::new(self.nodes@.len(), |i: int| self.nodes@[i]@),
            root: self.root,
            curr: self.curr,
            states: Seq::new(self.states@.len(), |i: int| state_view(self.states@[i])),
        }
    }
}

/// What must hold of the node with index `i`: its board is sound and of
/// the size of the root's board, and its stone lies on the board; unless it
/// is the root, it has a parent of lower index, which lists it among its
/// children if it is a move; its children have higher indices, in rising
/// order, and name it as their parent.
pub open spec fn node_ok(nodes: Seq<NodeView>, i: int) -> bool {
    let n = nodes[i];
    &&& sound(n.board())
    &&& n.board().len() == nodes[0].board().len()
    &&& within(nodes[0].board().len(), n.piece())
    &&& i > 0 ==> {
        &&& n.parent() is Some
        &&& n.parent()->0 < i
        &&& nodes[n.parent()->0 as int] is Move ==> nodes[n.parent()->0 as int].children().contains(
            i as usize,
        )
    }
    &&& forall|k: int|
        0 <= k < n.children().len() ==> i < #[trigger] n.children()[k] < nodes.len()
            && nodes[n.children()[k] as int].parent() == Some(i as usize)
    &&& forall|j: int, k: int|
        0 <= j < k < n.children().len() ==> #[trigger] n.children()[j] < #[trigger] n.children()[k]
}

/// What must hold of a saved state in a tree of `len` nodes for boards of
/// `size` rows and `size` columns: its board is sound and of that size, its
/// cursor names a node, its root is the first node, and its hasher is
/// well-formed and remembers a board of that size.
pub open spec fn state_ok(len: nat, size: nat, s: (Grid, usize, usize, ZobristView)) -> bool {
    &&& sound(s.0)
    &&& s.0.len() == size
    &&& s.1 < len
    &&& s.2 == 0
    &&& s.3.wf()
    &&& s.3.board.len() == size
}

impl GameView {
    /// The tree is well-formed: it has exactly one root, the first node, a
    /// move without parent whose board is empty; the cursor names a node;
    /// every node and every saved state is in order.
    pub open spec fn wf(self) -> bool {
        &&& self.nodes.len() > 0
        &&& self.root == 0
        &&& self.curr < self.nodes.len()
        &&& self.nodes[0] is Move
        &&& self.nodes[0].parent() is None
        &&& self.nodes[0].board() == empty_grid(self.size())
        &&& forall|i: int| 0 <= i < self.nodes.len() ==> #[trigger] node_ok(self.nodes, i)
        &&& forall|k: int|
            0 <= k < self.states.len() ==> state_ok(
                self.nodes.len(),
                self.size(),
                #[trigger] self.states[k],
            )
    }

    /// Whether every node of the tree is a move: none ends a line.
    pub open spec fn all_moves(self) -> bool {
        forall|i: int| 0 <= i < self.nodes.len() ==> #[trigger] self.nodes[i] is Move
    }

    /// The size of the boards of the game: that of the root's board.
    pub open spec fn size(self) -> nat {
        self.nodes[0].board().len()
    }

    /// The tree of a new game on a board of `n` rows and `n` columns: the
    /// root alone.
    pub open spec fn initial(n: nat) -> GameView {
        GameView {
            nodes: seq![
                NodeView::Move {
                    board: empty_grid(n),
                    piece: (0, 0),
                    color: BLACK,
                    parent: None,
                    children: Seq::empty(),
                },
            ],
            root: 0,
            curr: 0,
            states: Seq::empty(),
        }
    }

    /// The tree after a move was added at the cursor: the new node is the
    /// last child of the old cursor and the new cursor.
    pub open spec fn added(self, board: Grid, piece: (usize, usize), color: usize) -> GameView {
        GameView {
            nodes: self.nodes.update(
                self.curr as int,
                self.nodes[self.curr as int].with_child(self.nodes.len() as usize),
            ).push(
                NodeView::Move {
                    board,
                    piece,
                    color,
                    parent: Some(self.curr),
                    children: Seq::empty(),
                },
            ),
            curr: self.nodes.len() as usize,
            ..self
        }
    }

    /// The tree after the board and the hasher were saved with the cursor.
    pub open spec fn saved(self, board: Grid, hash: ZobristView) -> GameView {
        GameView { states: self.states.push((board, self.curr, self.root, hash)), ..self }
    }
}

/// An empty board is sound.
pub proof fn lemma_empty_sound(n: nat)
    requires
        valid_size(n),
    ensures
        sound(empty_grid(n)),
        empty_grid(n).len() == n,
{
}

impl Game {
    /// The tree of a new game on the full board: the root alone, a
    /// placeholder with the empty board, and no saved state.
    pub fn new() -> (game: Game)
        ensures
            game@ == GameView::initial(ROWS as nat),
            game@.wf(),
    {
        Game::of_size(ROWS)
    }

    /// The tree of a new game on a board of `size` rows and `size` columns.
    pub fn of_size(size: usize) -> (game: Game)
        requires
            valid_size(size as nat),
        ensures
            game@ == GameView::initial(size as nat),
            game@.wf(),
    {
        let board = empty_board_of(size);
        let root = Node::new(board, (0, 0), BLACK, None);
        let mut nodes: Vec<Node> = Vec::new();
        nodes.push(root);
        let game = Game { nodes, root: 0, curr: 0, states: Vec::new() };
        proof {
            lemma_empty_sound(size as nat);
            assert(game@.nodes =~= GameView::initial(size as nat).nodes);
            assert(game@.states =~= GameView::initial(size as nat).states);
            assert(node_ok(game@.nodes, 0));
        }
        game
    }

    /// The size of the boards of the game.
    pub fn size(&self) -> (n: usize)
        requires
            self@.wf(),
        ensures
            n == self@.size(),
            valid_size(n as nat),
    {
        assert(node_ok(self@.nodes, 0));
        assert(self@.nodes[0] == self.nodes@[0]@);
        match &self.nodes[0] {
            Node::Move { board, .. } => board.len(),
            Node::End { board, .. } => board.len(),
        }
    }

    /// Adds a move at the cursor and moves the cursor to it. Where the
    /// cursor already had children, the new move is one more variation.
    pub fn add_node(&mut self, board: Vec<Vec<Intersection>>, piece: (usize, usize), color: usize)
        requires
            old(self)@.wf(),
            sound(grid(&board)),
            board.len() == old(self)@.size(),
            within(old(self)@.size(), piece),
        ensures
            final(self)@ == old(self)@.added(grid(&board), piece, color),
            final(self)@.wf(),
    {
        let idx = self.nodes.len();
        let at = self.curr;
        let ghost before = self@;
        let node = Node::new(board, piece, color, Some(at));
        match &mut self.nodes[at] {
            Node::Move { children, .. } => {
                children.push(idx);
            },
            Node::End { .. } => {},
        }
        assert(self.nodes@[at as int]@ == before.nodes[at as int].with_child(idx));
        self.nodes.push(node);
        self.curr = idx;
        proof {
            let after = before.added(grid(&board), piece, color);
            assert(self.nodes.len() == idx + 1);
            assert(self@.nodes =~= after.nodes);
            assert(self@.states =~= after.states);
            lemma_added_wf(before, grid(&board), piece, color);
        }
    }

    /// Saves the board and the hasher with the cursor and the root.
    pub fn save_state(&mut self, board: Vec<Vec<Intersection>>, hash: Zobrist)
        requires
            old(self)@.wf(),
            sound(grid(&board)),
            board.len() == old(self)@.size(),
            hash@.wf(),
            hash@.board.len() == old(self)@.size(),
        ensures
            final(self)@ == old(self)@.saved(grid(&board), hash@),
            final(self)@.wf(),
    {
        let ghost before = self@;
        self.states.push((board, self.curr, self.root, hash));
        proof {
            let after = before.saved(grid(&board), hash@);
            assert(self@.nodes =~= after.nodes);
            assert(self@.states =~= after.states);
            assert forall|k: int| 0 <= k < after.states.len() implies state_ok(
                after.nodes.len(),
                after.size(),
                #[trigger] after.states[k],
            ) by {
                if k < before.states.len() {
                    assert(after.states[k] == before.states[k]);
                }
            }
        }
    }
}

/// Adding a move keeps the tree well-formed.
pub proof fn lemma_added_wf(t: GameView, board: Grid, piece: (usize, usize), color: usize)
    requires
        t.wf(),
        sound(board),
        board.len() == t.size(),
        within(t.size(), piece),
        t.nodes.len() < usize::MAX,
    ensures
        t.added(board, piece, color).wf(),
{
    let u = t.added(board, piece, color);
    let at = t.curr as int;
    let idx = t.nodes.len() as int;
    assert(node_ok(t.nodes, 0));
    assert forall|i: int| 0 <= i < u.nodes.len() implies #[trigger] node_ok(u.nodes, i) by {
        if i == idx {
            if t.nodes[at] is Move {
                assert(u.nodes[at].children()[t.nodes[at].children().len() as int] == idx);
            }
        } else {
            assert(node_ok(t.nodes, i));
            let n = t.nodes[i];
            let m = u.nodes[i];
            if i > 0 {
                let p = n.parent()->0 as int;
                if t.nodes[p] is Move {
                    let w = choose|w: int|
                        0 <= w < t.nodes[p].children().len() && t.nodes[p].children()[w] == i as usize;
                    assert(u.nodes[p].children()[w] == i as usize);
                }
            }
            assert forall|k: int| 0 <= k < m.children().len() implies i < #[trigger] m.children()[k]
                < u.nodes.len() && u.nodes[m.children()[k] as int].parent() == Some(i as usize) by {
                if k < n.children().len() {
                    assert(m.children()[k] == n.children()[k]);
                }
            }
            assert forall|j: int, k: int| 0 <= j < k < m.children().len() implies #[trigger] m.children()[j]
                < #[trigger] m.children()[k] by {
                assert(m.children()[j] == n.children()[j]);
                if k < n.children().len() {
                    assert(m.children()[k] == n.children()[k]);
                }
            }
        }
    }
    assert forall|k: int| 0 <= k < u.states.len() implies state_ok(
        u.nodes.len(),
        u.size(),
        #[trigger] u.states[k],
    ) by {
        assert(state_ok(t.nodes.len(), t.size(), t.states[k]));
    }
}

/// Appends one character to a string, with `String::push`: the string
/// afterwards is the string before, followed by the character.
#[verifier::external_body]
fn push_char(s: &mut String, c: char)
    ensures
        final(s)@ == old(s)@.push(c),
{
    s.push(c);
}

/// The letter that stands for a row or a column.
fn letter_of(k: usize) -> (c: char)
    requires
        k < ROWS,
    ensures
        c == letter(k),
{
    (k as u8 + 97u8) as char
}

/// Appends a move to a record.
fn write_move(out: &mut String, color: usize, piece: (usize, usize))
    requires
        in_frame(piece),
    ensures
        final(out)@ == old(out)@ + move_text(color, piece),
{
    push_char(out, ';');
    push_char(out, if color == BLACK { 'B' } else { 'W' });
    push_char(out, '[');
    push_char(out, letter_of(piece.0));
    push_char(out, letter_of(piece.1));
    push_char(out, ']');
    assert(out@ =~= old(out)@ + move_text(color, piece));
}

/// The header of a record of a game on a board of `size` rows and `size`
/// columns.
fn write_header(size: usize) -> (out: String)
    requires
        valid_size(size as nat),
    ensures
        out@ == header(size as nat),
{
    if size == SMALL {
        let out = String::from_str("(;FF[4]GM[1]SZ[9]");
        proof {
            reveal_strlit("(;FF[4]GM[1]SZ[9]");
            assert(out@ =~= header(size as nat));
        }
        out
    } else {
        let out = String::from_str("(;FF[4]GM[1]SZ[19]");
        proof {
            reveal_strlit("(;FF[4]GM[1]SZ[19]");
            assert(out@ =~= header(size as nat));
        }
        out
    }
}

/// Whether every node that a stack of tasks names is a node of the tree
/// other than the root.
pub open spec fn tasks_ok(nodes: Seq<NodeView>, stack: Seq<Task>) -> bool {
    forall|k: int|
        0 <= k < stack.len() ==> match #[trigger] stack[k] {
            Task::Node(i) => 0 < i < nodes.len(),
            _ => true,
        }
}

impl Game {
    /// Sees to what follows the move of the node with index `i`: its
    /// children are put on the stack, each between parentheses where there
    /// are several; a move without children gets the semicolon that ends
    /// its line.
    fn push_tail(&self, i: usize, first: bool, stack: &mut Vec<Task>, out: &mut String)
        requires
            self@.wf(),
            i < self.nodes.len(),
            self@.nodes[i as int] is Move,
            tasks_ok(self@.nodes, old(stack)@),
        ensures
            final(out)@ + stack_text(self@.nodes, final(stack)@) == old(out)@ + tail_text(
                self@.nodes,
                i as int,
                first,
            ) + stack_text(self@.nodes, old(stack)@),
            tasks_ok(self@.nodes, final(stack)@),
            final(out)@.len() >= old(out)@.len(),
    {
        let ghost nodes = self@.nodes;
        let ghost below = stack@;
        assert(node_ok(nodes, i as int));
        assert(nodes[i as int] == self.nodes@[i as int]@);
        match &self.nodes[i] {
            Node::Move { children, .. } => {
                assert(nodes[i as int].children() == children@);
                if children.len() > 1 {
                    let mut k: usize = children.len();
                    assert(stack_text(nodes, stack@) =~= branches_from(nodes, i as int, k as int)
                        + stack_text(nodes, below));
                    while k > 0
                        invariant
                            k <= children.len(),
                            nodes == self@.nodes,
                            i < nodes.len(),
                            node_ok(nodes, i as int),
                            nodes[i as int].children() == children@,
                            tasks_ok(nodes, stack@),
                            stack_text(nodes, stack@) == branches_from(nodes, i as int, k as int)
                                + stack_text(nodes, below),
                        decreases k,
                    {
                        k -= 1;
                        let c = children[k];
                        assert(i < nodes[i as int].children()[k as int] < nodes.len());
                        proof {
                            let s0 = stack@;
                            let s1 = s0.push(Task::Close);
                            let s2 = s1.push(Task::Node(c));
                            lemma_stack_push(nodes, s0, Task::Close);
                            lemma_stack_push(nodes, s1, Task::Node(c));
                            lemma_stack_push(nodes, s2, Task::Open);
                            assert(child_text(nodes, i as int, k as int) == node_text(
                                nodes,
                                c as int,
                                false,
                            ));
                            assert(seq!['('] + node_text(nodes, c as int, false) + seq![')']
                                + branches_from(nodes, i as int, k + 1) + stack_text(nodes, below)
                                =~= seq!['('] + (node_text(nodes, c as int, false) + (seq![')'] + (
                            branches_from(nodes, i as int, k + 1) + stack_text(nodes, below)))));
                        }
                        stack.push(Task::Close);
                        stack.push(Task::Node(c));
                        stack.push(Task::Open);
                    }
                    proof {
                        lemma_branches_split(nodes, i as int, 0);
                        assert(branches_text(nodes, i as int, 0) + branches_from(nodes, i as int, 0)
                            =~= branches_from(nodes, i as int, 0));
                    }
                } else if children.len() == 1 {
                    let c = children[0];
                    assert(i < nodes[i as int].children()[0] < nodes.len());
                    proof {
                        lemma_stack_push(nodes, stack@, Task::Node(c));
                        assert(child_text(nodes, i as int, 0) == node_text(nodes, c as int, false));
                    }
                    stack.push(Task::Node(c));
                } else if !first {
                    push_char(out, ';');
                }
                assert(out@ + stack_text(nodes, stack@) =~= old(out)@ + tail_text(
                    nodes,
                    i as int,
                    first,
                ) + stack_text(nodes, below));
            },
            Node::End { .. } => {},
        }
    }

    /// The record of the game as text: the header, then the tree from the
    /// root on, then the closing parenthesis. The root itself stands for no
    /// move and is not written. The tree is walked with a stack of its own,
    /// so that a long game asks for no deep recursion.
    pub fn to_sgf(&self) -> (sgf: String)
        requires
            self@.wf(),
        ensures
            sgf@ == sgf_text(self@),
    {
        let ghost nodes = self@.nodes;
        let size = self.size();
        let ghost total = header(size as nat) + node_text(nodes, self.root as int, true);
        let mut sgf = write_header(size);
        let mut stack: Vec<Task> = Vec::new();
        assert(stack_text(nodes, stack@) =~= Seq::<char>::empty());
        self.push_tail(self.root, true, &mut stack, &mut sgf);
        assert(sgf@ + stack_text(nodes, stack@) =~= total);
        while stack.len() > 0
            invariant
                self@.wf(),
                nodes == self@.nodes,
                tasks_ok(nodes, stack@),
                sgf@ + stack_text(nodes, stack@) == total,
            decreases total.len() - sgf@.len(), stack.len(),
        {
            let ghost before = stack@;
            let ghost written = sgf@;
            let task = stack.pop().unwrap();
            assert(stack@ =~= before.drop_last());
            assert(task == before.last());
            assert(tasks_ok(nodes, stack@)) by {
                assert forall|k: int| 0 <= k < stack.len() implies match #[trigger] stack@[k] {
                    Task::Node(i) => 0 < i < nodes.len(),
                    _ => true,
                } by {
                    assert(stack@[k] == before[k]);
                }
            }
            match task {
                Task::Open => {
                    push_char(&mut sgf, '(');
                    assert(sgf@ + stack_text(nodes, stack@) =~= written + (seq!['('] + stack_text(
                        nodes,
                        stack@,
                    )));
                },
                Task::Close => {
                    push_char(&mut sgf, ')');
                    assert(sgf@ + stack_text(nodes, stack@) =~= written + (seq![')'] + stack_text(
                        nodes,
                        stack@,
                    )));
                },
                Task::Node(i) => {
                    assert(before[before.len() - 1] == Task::Node(i));
                    assert(node_ok(nodes, i as int));
                    assert(nodes[i as int] == self.nodes@[i as int]@);
                    match &self.nodes[i] {
                        Node::Move { piece, color, .. } => {
                            write_move(&mut sgf, *color, *piece);
                            let ghost moved_on = sgf@;
                            self.push_tail(i, false, &mut stack, &mut sgf);
                            assert(node_text(nodes, i as int, false) == move_text(*color, *piece)
                                + tail_text(nodes, i as int, false));
                            assert(sgf@ + stack_text(nodes, stack@) =~= written + (node_text(
                                nodes,
                                i as int,
                                false,
                            ) + stack_text(nodes, before.drop_last())));
                        },
                        Node::End { piece, color, .. } => {
                            write_move(&mut sgf, *color, *piece);
                            assert(sgf@ + stack_text(nodes, stack@) =~= written + (node_text(
                                nodes,
                                i as int,
                                false,
                            ) + stack_text(nodes, before.drop_last())));
                        },
                    }
                },
            }
        }
        assert(sgf@ =~= total);
        push_char(&mut sgf, ')');
        sgf
    }
}

/// The moves of the subtree of the node with index `i` in the order in
/// which a walk of the tree meets them: a move before what was played from
/// it, and the variations of a move in the order in which they were added.
/// A node that ends a line is passed over.
pub open spec fn walk_order(nodes: Seq<NodeView>, i: int) -> Seq<usize>
    decreases nodes.len() - i, 1int, 0int,
{
    if 0 <= i < nodes.len() && nodes[i] is Move {
        seq![i as usize] + walk_children(nodes, i, nodes[i].children().len() as int)
    } else {
        Seq::empty()
    }
}

/// The walk through the first `n` children of the node with index `i`.
pub open spec fn walk_children(nodes: Seq<NodeView>, i: int, n: int) -> Seq<usize>
    decreases nodes.len() - i, 0int, n,
{
    if 0 <= i < nodes.len() && 0 < n <= nodes[i].children().len() {
        walk_children(nodes, i, n - 1) + if i < nodes[i].children()[n - 1] < nodes.len() {
            walk_order(nodes, nodes[i].children()[n - 1] as int)
        } else {
            Seq::empty()
        }
    } else {
        Seq::empty()
    }
}

/// The walk through the children of the node with index `i` from the child
/// with number `k` on.
pub open spec fn walk_rest(nodes: Seq<NodeView>, i: int, k: int) -> Seq<usize>
    decreases nodes[i].children().len() - k,
{
    if 0 <= k < nodes[i].children().len() {
        (if i < nodes[i].children()[k] < nodes.len() {
            walk_order(nodes, nodes[i].children()[k] as int)
        } else {
            Seq::empty()
        }) + walk_rest(nodes, i, k + 1)
    } else {
        Seq::empty()
    }
}

/// The walk through the first children followed by the walk through the
/// others is the walk through all children.
pub proof fn lemma_walk_split(nodes: Seq<NodeView>, i: int, k: int)
    requires
        0 <= i < nodes.len(),
        0 <= k <= nodes[i].children().len(),
    ensures
        walk_children(nodes, i, k) + walk_rest(nodes, i, k) == walk_children(
            nodes,
            i,
            nodes[i].children().len() as int,
        ),
    decreases nodes[i].children().len() - k,
{
    let n = nodes[i].children().len() as int;
    if k < n {
        lemma_walk_split(nodes, i, k + 1);
        assert(walk_children(nodes, i, k) + walk_rest(nodes, i, k) =~= walk_children(nodes, i, k + 1)
            + walk_rest(nodes, i, k + 1));
    } else {
        assert(walk_children(nodes, i, k) + walk_rest(nodes, i, k) =~= walk_children(nodes, i, n));
    }
}

/// The walk that a stack of nodes still to be visited stands for, the top
/// of the stack first.
pub open spec fn stack_order(nodes: Seq<NodeView>, stack: Seq<usize>) -> Seq<usize>
    decreases stack.len(),
{
    if stack.len() == 0 {
        Seq::empty()
    } else {
        walk_order(nodes, stack.last() as int) + stack_order(nodes, stack.drop_last())
    }
}

/// A node pushed on a stack comes first in its walk.
pub proof fn lemma_order_push(nodes: Seq<NodeView>, stack: Seq<usize>, i: usize)
    ensures
        stack_order(nodes, stack.push(i)) == walk_order(nodes, i as int) + stack_order(nodes, stack),
{
    assert(stack.push(i).drop_last() =~= stack);
}

/// The last among the first `n` nodes of `order` whose board is `board`.
pub open spec fn last_match(nodes: Seq<NodeView>, order: Seq<usize>, board: Grid, n: int) -> Option<
    usize,
>
    decreases n,
{
    if n <= 0 {
        None
    } else if order[n - 1] < nodes.len() && nodes[order[n - 1] as int].board() == board {
        Some(order[n - 1])
    } else {
        last_match(nodes, order, board, n - 1)
    }
}

/// The node that a saved board is bound to: the last node that a walk of
/// the tree meets whose board is that board; the cursor where there is none.
pub open spec fn bound_node(t: GameView, board: Grid) -> usize {
    let order = walk_order(t.nodes, t.root as int);
    match last_match(t.nodes, order, board, order.len() as int) {
        Some(n) => n,
        None => t.curr,
    }
}

/// The tree after the saved states of a stored game were taken in: each
/// stands behind the states that the tree held, with the tree's root, bound
/// to the node whose board is its board.
pub open spec fn with_states(t: GameView, states: Seq<(Grid, ZobristView)>) -> GameView {
    GameView {
        states: t.states + Seq::new(
            states.len(),
            |i: int| (states[i].0, bound_node(t, states[i].0), t.root, states[i].1),
        ),
        ..t
    }
}

/// A game as it is stored: the record of its moves, and the saved boards
/// with their hashers.
#[derive(Debug)]
pub struct Saved {
    pub sgf: String,
    pub states: Vec<(Vec<Vec<Intersection>>, Zobrist)>,
}

/// Mathematical value of a [`Saved`].
pub struct SavedView {
    pub sgf: Seq<char>,
    pub states: Seq<(Grid, ZobristView)>,
}

impl View for Saved {
    type V = SavedView;

    open spec fn view(&self) -> SavedView {
        SavedView {
            sgf: self.sgf@,
            states: Seq::new(
                self.states@.len(),
                |i: int| (grid(&self.states@[i].0), self.states@[i].1@),
            ),
        }
    }
}

impl SavedView {
    /// Whether the stored game suits boards of `n` rows and `n` columns:
    /// every stored board is sound and of that size, and every stored
    /// hasher is well-formed and remembers a board of that size.
    pub open spec fn suits(self, n: nat) -> bool {
        forall|k: int|
            0 <= k < self.states.len() ==> {
                &&& sound((#[trigger] self.states[k]).0)
                &&& self.states[k].0.len() == n
                &&& self.states[k].1.wf()
                &&& self.states[k].1.board.len() == n
            }
    }

    /// Whether every stored board is sound and of `n` rows and `n` columns,
    /// as is the board that its hasher remembers.
    pub open spec fn fits(self, n: nat) -> bool {
        forall|k: int|
            0 <= k < self.states.len() ==> {
                &&& sound((#[trigger] self.states[k]).0)
                &&& self.states[k].0.len() == n
                &&& self.states[k].1.board.len() == n
            }
    }
}

impl Saved {
    /// What is stored of a game: its record as text, and each saved state's
    /// board and hasher.
    pub fn new(game: &Game) -> (saved: Saved)
        requires
            game@.wf(),
        ensures
            saved@.sgf == sgf_text(game@),
            saved@.states == Seq::new(
                game@.states.len(),
                |i: int| (game@.states[i].0, game@.states[i].3),
            ),
            saved@.suits(game@.size()),
    {
        let sgf = game.to_sgf();
        let mut states: Vec<(Vec<Vec<Intersection>>, Zobrist)> = Vec::new();
        let mut k: usize = 0;
        while k < game.states.len()
            invariant
                k <= game.states.len(),
                states.len() == k,
                forall|w: int|
                    0 <= w < k ==> grid(&(#[trigger] states@[w]).0) == grid(&game.states@[w].0)
                        && states@[w].1@ == game.states@[w].3@,
            decreases game.states.len() - k,
        {
            states.push((copy_board(&game.states[k].0), game.states[k].3.duplicate()));
            k += 1;
        }
        let saved = Saved { sgf, states };
        proof {
            assert(saved@.states =~= Seq::new(
                game@.states.len(),
                |i: int| (game@.states[i].0, game@.states[i].3),
            ));
            assert forall|w: int| 0 <= w < saved@.states.len() implies {
                &&& sound((#[trigger] saved@.states[w]).0)
                &&& saved@.states[w].0.len() == game@.size()
                &&& saved@.states[w].1.wf()
                &&& saved@.states[w].1.board.len() == game@.size()
            } by {
                assert(state_ok(game@.nodes.len(), game@.size(), game@.states[w]));
            }
        }
        saved
    }

    /// Whether every stored board is sound and of `size` rows and `size`
    /// columns, as is the board that its hasher remembers.
    pub fn fits(&self, size: usize) -> (ok: bool)
        ensures
            ok == self@.fits(size as nat),
    {
        let mut k: usize = 0;
        while k < self.states.len()
            invariant
                k <= self.states.len(),
                forall|w: int|
                    0 <= w < k ==> {
                        &&& sound((#[trigger] self@.states[w]).0)
                        &&& self@.states[w].0.len() == size
                        &&& self@.states[w].1.board.len() == size
                    },
            decreases self.states.len() - k,
        {
            assert(self@.states[k as int] == (grid(&self.states@[k as int].0), self.states@[k as int].1@));
            if !crate::go::is_sound(&self.states[k].0) || self.states[k].0.len() != size
                || self.states[k].1.size() != size {
                return false;
            }
            k += 1;
        }
        true
    }
}

impl Game {
    /// The moves of the tree in the order in which a walk from the root
    /// meets them. The tree is walked with a stack of its own.
    fn walk(&self) -> (order: Vec<usize>)
        requires
            self@.wf(),
        ensures
            order@ == walk_order(self@.nodes, self@.root as int),
    {
        let ghost nodes = self@.nodes;
        let ghost total = walk_order(nodes, self.root as int);
        let mut order: Vec<usize> = Vec::new();
        let mut stack: Vec<usize> = Vec::new();
        proof {
            lemma_order_push(nodes, stack@, self.root);
            assert(stack_order(nodes, stack@) =~= Seq::<usize>::empty());
        }
        stack.push(self.root);
        assert(order@ + stack_order(nodes, stack@) =~= total);
        while stack.len() > 0
            invariant
                self@.wf(),
                nodes == self@.nodes,
                forall|k: int| 0 <= k < stack.len() ==> #[trigger] stack@[k] < nodes.len(),
                order@ + stack_order(nodes, stack@) == total,
            decreases total.len() - order@.len(), stack.len(),
        {
            let ghost before = stack@;
            let ghost listed = order@;
            let i = stack.pop().unwrap();
            assert(stack@ =~= before.drop_last());
            assert(before[before.len() - 1] == i);
            assert(node_ok(nodes, i as int));
            assert(nodes[i as int] == self.nodes@[i as int]@);
            let ghost below = stack@;
            match &self.nodes[i] {
                Node::Move { children, .. } => {
                    assert(nodes[i as int].children() == children@);
                    order.push(i);
                    let mut k: usize = children.len();
                    assert(stack_order(nodes, stack@) =~= walk_rest(nodes, i as int, k as int)
                        + stack_order(nodes, below));
                    while k > 0
                        invariant
                            k <= children.len(),
                            nodes == self@.nodes,
                            i < nodes.len(),
                            node_ok(nodes, i as int),
                            nodes[i as int].children() == children@,
                            forall|w: int| 0 <= w < stack.len() ==> #[trigger] stack@[w] < nodes.len(),
                            stack_order(nodes, stack@) == walk_rest(nodes, i as int, k as int)
                                + stack_order(nodes, below),
                        decreases k,
                    {
                        k -= 1;
                        let c = children[k];
                        assert(i < nodes[i as int].children()[k as int] < nodes.len());
                        proof {
                            lemma_order_push(nodes, stack@, c);
                            assert(walk_order(nodes, c as int) + (walk_rest(nodes, i as int, k + 1)
                                + stack_order(nodes, below)) =~= walk_rest(nodes, i as int, k as int)
                                + stack_order(nodes, below));
                        }
                        stack.push(c);
                    }
                    proof {
                        lemma_walk_split(nodes, i as int, 0);
                        assert(walk_children(nodes, i as int, 0) + walk_rest(nodes, i as int, 0)
                            =~= walk_rest(nodes, i as int, 0));
                        assert(walk_order(nodes, i as int) == seq![i] + walk_children(
                            nodes,
                            i as int,
                            children.len() as int,
                        ));
                        assert(order@ + stack_order(nodes, stack@) =~= listed + (walk_order(
                            nodes,
                            i as int,
                        ) + stack_order(nodes, below)));
                    }
                },
                Node::End { .. } => {
                    assert(order@ + stack_order(nodes, stack@) =~= listed + (walk_order(
                        nodes,
                        i as int,
                    ) + stack_order(nodes, below)));
                },
            }
        }
        assert(order@ =~= total);
        order
    }

    /// The last node of `order` whose board is `board`.
    fn find_last(&self, order: &Vec<usize>, board: &Vec<Vec<Intersection>>) -> (r: Option<usize>)
        requires
            forall|i: int| 0 <= i < self@.nodes.len() ==> #[trigger] node_ok(self@.nodes, i),
            is_grid(grid(board)),
        ensures
            r == last_match(self@.nodes, order@, grid(board), order.len() as int),
    {
        let mut n: usize = order.len();
        while n > 0
            invariant
                n <= order.len(),
                forall|i: int| 0 <= i < self@.nodes.len() ==> #[trigger] node_ok(self@.nodes, i),
                is_grid(grid(board)),
                last_match(self@.nodes, order@, grid(board), order.len() as int) == last_match(
                    self@.nodes,
                    order@,
                    grid(board),
                    n as int,
                ),
            decreases n,
        {
            let at = order[n - 1];
            if at < self.nodes.len() {
                assert(node_ok(self@.nodes, at as int));
                assert(self@.nodes[at as int] == self.nodes@[at as int]@);
                let same = match &self.nodes[at] {
                    Node::Move { board: b, .. } => same_board(b, board),
                    Node::End { board: b, .. } => same_board(b, board),
                };
                if same {
                    return Some(at);
                }
            }
            n -= 1;
        }
        None
    }

    /// Takes in the saved states of a stored game. Each comes to stand
    /// behind the states that the tree already holds, with the tree's root
    /// and bound to the node of the tree whose board is the state's board:
    /// the last such node that a walk of the tree meets, and the cursor
    /// where no node has that board.
    pub fn add_states(&mut self, saved: Saved)
        requires
            old(self)@.wf(),
            saved@.suits(old(self)@.size()),
        ensures
            final(self)@ == with_states(old(self)@, saved@.states),
            final(self)@.wf(),
    {
        let ghost before = self@;
        let ghost goal = with_states(before, saved@.states).states;
        let order = self.walk();
        let mut k: usize = 0;
        while k < saved.states.len()
            invariant
                k <= saved.states.len(),
                before.wf(),
                saved@.suits(before.size()),
                order@ == walk_order(before.nodes, before.root as int),
                self@.nodes == before.nodes,
                self@.root == before.root,
                self@.curr == before.curr,
                self@.states == goal.take(before.states.len() + k),
                goal.len() == before.states.len() + saved@.states.len(),
                forall|i: int|
                    0 <= i < saved@.states.len() ==> #[trigger] goal[before.states.len() + i] == (
                        saved@.states[i].0,
                        bound_node(before, saved@.states[i].0),
                        before.root,
                        saved@.states[i].1,
                    ),
                forall|i: int| 0 <= i < before.states.len() ==> goal[i] == before.states[i],
            decreases saved.states.len() - k,
        {
            assert(sound(saved@.states[k as int].0));
            assert(saved@.states[k as int].0 == grid(&saved.states@[k as int].0));
            let board = copy_board(&saved.states[k].0);
            let hash = saved.states[k].1.duplicate();
            let node = match self.find_last(&order, &board) {
                Some(n) => n,
                None => self.curr,
            };
            let ghost was = self@;
            let ghost entry = (grid(&board), node, self.root, hash@);
            assert(node == bound_node(before, saved@.states[k as int].0));
            assert(hash@ == saved@.states[k as int].1);
            self.states.push((board, node, self.root, hash));
            proof {
                assert(self@.nodes =~= before.nodes);
                assert(self@.states[was.states.len() as int] == entry);
                assert(goal[before.states.len() + k] == (
                    saved@.states[k as int].0,
                    bound_node(before, saved@.states[k as int].0),
                    before.root,
                    saved@.states[k as int].1,
                ));
                assert(self@.states =~= goal.take(before.states.len() + k + 1)) by {
                    assert forall|i: int| 0 <= i < self@.states.len() implies self@.states[i]
                        == goal.take(before.states.len() + k + 1)[i] by {
                        if i < was.states.len() {
                            assert(self@.states[i] == was.states[i]);
                        } else {
                            assert(self@.states[i] == entry);
                        }
                    }
                }
            }
            k += 1;
        }
        proof {
            assert(goal.take(goal.len() as int) =~= goal);
            lemma_bound_in_range(before, order@);
            assert forall|i: int| 0 <= i < self@.states.len() implies state_ok(
                self@.nodes.len(),
                self@.size(),
                #[trigger] self@.states[i],
            ) by {
                if i < before.states.len() {
                    assert(state_ok(before.nodes.len(), before.size(), before.states[i]));
                } else {
                    let j = i - before.states.len();
                    assert(goal[before.states.len() + j] == (
                        saved@.states[j].0,
                        bound_node(before, saved@.states[j].0),
                        before.root,
                        saved@.states[j].1,
                    ));
                    assert(sound(saved@.states[j].0));
                }
            }
        }
    }
}

/// A match names a node of the tree.
pub proof fn lemma_last_match_in_range(nodes: Seq<NodeView>, order: Seq<usize>, board: Grid, n: int)
    ensures
        match last_match(nodes, order, board, n) {
            Some(m) => m < nodes.len() && nodes[m as int].board() == board,
            None => true,
        },
    decreases n,
{
    if n > 0 {
        lemma_last_match_in_range(nodes, order, board, n - 1);
    }
}

/// A saved board is bound to a node of the tree.
pub proof fn lemma_bound_in_range(t: GameView, order: Seq<usize>)
    requires
        t.wf(),
        order == walk_order(t.nodes, t.root as int),
    ensures
        forall|board: Grid| #[trigger] bound_node(t, board) < t.nodes.len(),
{
    assert forall|board: Grid| #[trigger] bound_node(t, board) < t.nodes.len() by {
        lemma_last_match_in_range(t.nodes, order, board, order.len() as int);
    }
}

} // verus!
