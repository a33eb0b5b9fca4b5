//! Stones, groups and liberties: the board's data and the bookkeeping that the
//! rules read.

use vstd::prelude::*;
use std::collections::HashSet;
use rand::Rng;
use crate::game::Game;
use crate::akin::{
    akin, alive, any_breath, any_take, gives_breath, legal, lemma_akin_alive, lemma_akin_chain,
    lemma_akin_checks,
    lemma_akin_legal, lemma_akin_self, lemma_akin_with_liberties, lemma_recount, takes, verdict,
};
use crate::capture::{
    captured, cleared, doomed, found_dead, lemma_moved_sound, lemma_neighbours_on_board,
    lemma_settled_sound,
    lemma_sweep_keeps, lemma_with_liberties_keeps, moved, neighbours, new_stone, opponent, put,
    settled, sweep_dead, sweep_grid,
};
use crate::position::{hash_upto, lemma_xor_swap, position_hash};
use crate::cells::{
    adjacent, cell_at, collect_marks, in_frame, is_valid_size, lemma_listed_distinct, lemma_ordered,
    marked, no_marks, ordered, set_mark, valid_size, within, CELLS, COLS, ROWS,
};
use crate::chain::{
    connected, group_set, has_color, lemma_connected_self, lemma_connected_step,
    lemma_group_is_closure, lemma_listed_grows, regroup,
};

verus! {

broadcast use vstd::std_specs::hash::group_hash_axioms;

/// State of an intersection that holds no stone.
pub const EMPTY: usize = 0;

/// Colour number of black.
pub const BLACK: usize = 1;

/// Colour number of white.
pub const WHITE: usize = 2;

/// Why a move or a game record is refused.
#[derive(Debug, Clone, Copy, PartialEq, Eq, Structural)]
pub enum GoError {
    /// The coordinate lies outside the board.
    OutOfBounds,
    /// The point already holds a stone.
    OccupiedCell,
    /// The stone would have no liberty and capture nothing.
    SuicideMove,
    /// The move would bring back a position that the game has passed through.
    KoViolation,
    /// The game record cannot be read.
    MalformedRecord,
}

/// The record that a stone keeps of its group: the stones of the group and
/// the group's liberties, both in row-major order.
#[derive(Debug, Clone, PartialEq, Eq)]
pub struct Group {
    pub intersections: Vec<(usize, usize)>,
    pub liberties: Vec<(usize, usize)>,
}

/// One intersection of the board.
#[derive(Debug, Clone, PartialEq, Eq)]
pub enum Intersection {
    Empty,
    Black(Group),
    White(Group),
}

/// Mathematical value of a [`Group`].
pub struct GroupView {
    pub intersections: Seq<(usize, usize)>,
    pub liberties: Seq<(usize, usize)>,
}

/// Mathematical value of an [`Intersection`].
pub enum Point {
    Empty,
    Black(GroupView),
    White(GroupView),
}

/// Mathematical value of a board: rows of points.
pub type Grid = Seq<Seq<Point>>;

impl View for Group {
    type V = GroupView;

    open spec fn view(&self) -> GroupView {
        GroupView { intersections: self.intersections@, liberties: self.liberties@ }
    }
}

impl View for Intersection {
    type V = Point;

    open spec fn view(&self) -> Point {
        match self {
            Intersection::Empty => Point::Empty,
            Intersection::Black(g) => Point::Black(g@),
            Intersection::White(g) => Point::White(g@),
        }
    }
}

impl Point {
    /// 0 for an empty point, else the colour number of its stone.
    pub open spec fn state(self) -> usize {
        match self {
            Point::Empty => EMPTY,
            Point::Black(_) => BLACK,
            Point::White(_) => WHITE,
        }
    }

    /// The stones that the point records as its group.
    pub open spec fn stones(self) -> Seq<(usize, usize)> {
        match self {
            Point::Empty => Seq::empty(),
            Point::Black(g) => g.intersections,
            Point::White(g) => g.intersections,
        }
    }

    /// The liberties that the point records for its group.
    pub open spec fn liberties(self) -> Seq<(usize, usize)> {
        match self {
            Point::Empty => Seq::empty(),
            Point::Black(g) => g.liberties,
            Point::White(g) => g.liberties,
        }
    }
}

/// The grid that a board stands for.
pub open spec fn grid(b: &Vec<Vec<Intersection>>) -> Grid {
    Seq::new(b@.len(), |i: int| Seq::new(b@[i]@.len(), |j: int| b@[i]@[j]@))
}

/// The point of a grid at a coordinate.
pub open spec fn at(g: Grid, c: (usize, usize)) -> Point {
    g[c.0 as int][c.1 as int]
}

/// A grid has the dimensions of a board: it is square, small or full.
pub open spec fn is_grid(g: Grid) -> bool {
    &&& valid_size(g.len())
    &&& forall|i: int| 0 <= i < g.len() ==> (#[trigger] g[i]).len() == g.len()
}

/// A grid has the dimensions of a board and every recorded stone lies on the board.
pub open spec fn well_formed(g: Grid) -> bool {
    &&& is_grid(g)
    &&& forall|c: (usize, usize), k: int|
        within(g.len(), c) && 0 <= k < at(g, c).stones().len() ==> within(
            g.len(),
            #[trigger] at(g, c).stones()[k],
        )
}

/// A well-formed grid in which every stone belongs to the group that it records.
pub open spec fn sound(g: Grid) -> bool {
    &&& well_formed(g)
    &&& forall|c: (usize, usize)|
        within(g.len(), c) && !(#[trigger] at(g, c) is Empty) ==> at(g, c).stones().contains(c)
}

/// The grid of `n` rows and `n` columns without any stone.
pub open spec fn empty_grid(n: nat) -> Grid {
    Seq::new(n, |i: int| Seq::new(n, |j: int| Point::Empty))
}

/// Whether `c` is one of the first `n` entries of `stones`.
pub open spec fn among(stones: Seq<(usize, usize)>, n: int, c: (usize, usize)) -> bool {
    exists|k: int| 0 <= k < n && #[trigger] stones[k] == c
}

/// Whether `c` is an empty point next to the stone at `s`.
pub open spec fn breath_of(g: Grid, s: (usize, usize), c: (usize, usize)) -> bool {
    &&& within(g.len(), c)
    &&& at(g, c) is Empty
    &&& within(g.len(), s)
    &&& !(at(g, s) is Empty)
    &&& adjacent(s, c)
}

/// The empty points next to any of the first `n` entries of `stones` that hold a stone.
pub open spec fn liberties_upto(g: Grid, stones: Seq<(usize, usize)>, n: int) -> Set<(usize, usize)> {
    Set::new(|c: (usize, usize)| exists|k: int| 0 <= k < n && breath_of(g, #[trigger] stones[k], c))
}

/// The liberties of a list of stones: the union, over the stones, of their
/// empty neighbours.
pub open spec fn liberty_set(g: Grid, stones: Seq<(usize, usize)>) -> Set<(usize, usize)> {
    liberties_upto(g, stones, stones.len() as int)
}

/// A point with its recorded liberties replaced, where its stone passes the
/// colour filter: black stones for colour 1, white stones for any other.
pub open spec fn relabel(p: Point, color: usize, libs: Seq<(usize, usize)>) -> Point {
    match p {
        Point::Black(g) => if color == BLACK {
            Point::Black(GroupView { liberties: libs, ..g })
        } else {
            p
        },
        Point::White(g) => if color != BLACK {
            Point::White(GroupView { liberties: libs, ..g })
        } else {
            p
        },
        Point::Empty => p,
    }
}

/// A grid in which the first `n` entries of `stones` have been relabelled.
pub open spec fn relabelled(
    g: Grid,
    stones: Seq<(usize, usize)>,
    n: int,
    color: usize,
    libs: Seq<(usize, usize)>,
) -> Grid {
    Seq::new(
        g.len(),
        |i: int|
            Seq::new(
                g.len(),
                |j: int|
                    if among(stones, n, (i as usize, j as usize)) {
                        relabel(g[i][j], color, libs)
                    } else {
                        g[i][j]
                    },
            ),
    )
}

/// The grid after the liberties of the group recorded at `(x, y)` have been
/// recomputed and written to every stone of that group that passes the
/// colour filter.
pub open spec fn with_liberties(g: Grid, x: usize, y: usize, color: usize) -> Grid {
    let stones = at(g, (x, y)).stones();
    relabelled(g, stones, stones.len() as int, color, ordered(liberty_set(g, stones)))
}

/// A grid in which the first `n` entries of `stones` record `list` as their group.
pub open spec fn regrouped(
    g: Grid,
    stones: Seq<(usize, usize)>,
    n: int,
    color: usize,
    list: Seq<(usize, usize)>,
) -> Grid {
    Seq::new(
        g.len(),
        |i: int|
            Seq::new(
                g.len(),
                |j: int|
                    if among(stones, n, (i as usize, j as usize)) {
                        regroup(g[i][j], color, list)
                    } else {
                        g[i][j]
                    },
            ),
    )
}

/// The grid after the group of the given colour that holds `(x, y)` has been
/// found and recorded, in row-major order, on every stone of it.
pub open spec fn with_group(g: Grid, x: usize, y: usize, color: usize) -> Grid {
    let s = group_set(g, x, y, color);
    Seq::new(
        g.len(),
        |i: int|
            Seq::new(
                g.len(),
                |j: int|
                    if s.contains((i as usize, j as usize)) {
                        regroup(g[i][j], color, ordered(s))
                    } else {
                        g[i][j]
                    },
            ),
    )
}

/// Whether some member of `s` is a neighbour of `q`.
pub open spec fn next_to(s: Set<(usize, usize)>, q: (usize, usize)) -> bool {
    exists|f: (usize, usize)| #[trigger] s.contains(f) && adjacent(f, q)
}

/// What a list holds after a push.
pub proof fn lemma_push_holds<T>(s: Seq<T>, a: T)
    ensures
        forall|v: T| #[trigger] s.push(a).contains(v) <==> (s.contains(v) || v == a),
{
    assert forall|v: T| #[trigger] s.push(a).contains(v) <==> (s.contains(v) || v == a) by {
        if s.contains(v) {
            let i = choose|i: int| 0 <= i < s.len() && s[i] == v;
            assert(s.push(a)[i] == v);
        }
        if v == a {
            assert(s.push(a)[s.len() as int] == v);
        }
        if s.push(a).contains(v) {
            let i = choose|i: int| 0 <= i < s.push(a).len() && s.push(a)[i] == v;
            if i < s.len() {
                assert(s[i] == v);
            }
        }
    }
}

/// What a list holds after its last entry has been taken off.
pub proof fn lemma_drop_last_holds(s: Seq<(usize, usize)>)
    requires
        s.len() > 0,
    ensures
        forall|v: (usize, usize)| #[trigger] s.contains(v) <==> (s.drop_last().contains(v) || v == s.last()),
{
    assert forall|v: (usize, usize)| #[trigger] s.contains(v) <==> (s.drop_last().contains(v) || v
        == s.last()) by {
        if s.contains(v) {
            let i = choose|i: int| 0 <= i < s.len() && s[i] == v;
            if i < s.len() - 1 {
                assert(s.drop_last()[i] == v);
            }
        }
        if s.drop_last().contains(v) {
            let i = choose|i: int| 0 <= i < s.drop_last().len() && s.drop_last()[i] == v;
            assert(s[i] == v);
        }
        if v == s.last() {
            assert(s[s.len() - 1] == v);
        }
    }
}

/// A copy of a list of coordinates.
pub fn copy_cells(v: &Vec<(usize, usize)>) -> (out: Vec<(usize, usize)>)
    ensures
        out@ == v@,
{
    let mut out: Vec<(usize, usize)> = Vec::new();
    let mut k: usize = 0;
    while k < v.len()
        invariant
            k <= v.len(),
            out@ == v@.take(k as int),
        decreases v.len() - k,
    {
        out.push(v[k]);
        k += 1;
    }
    out
}

/// Whether the intersection at `(x, y)` holds no stone.
fn is_empty_at(board: &Vec<Vec<Intersection>>, x: usize, y: usize) -> (b: bool)
    requires
        is_grid(grid(board)),
        x < board.len(),
        y < board.len(),
    ensures
        b == (at(grid(board), (x, y)) is Empty),
{
    assert(grid(board)[x as int].len() == grid(board).len());
    match &board[x][y] {
        Intersection::Empty => true,
        _ => false,
    }
}

/// Marks the empty neighbours of the stone at `(x, y)`; marks nothing where
/// `(x, y)` holds no stone.
fn find_liberties(x: usize, y: usize, board: &Vec<Vec<Intersection>>, libs: &mut [[bool; COLS]; ROWS])
    requires
        is_grid(grid(board)),
        x < board.len(),
        y < board.len(),
    ensures
        forall|c: (usize, usize)|
            marked(*final(libs)).contains(c) <==> (marked(*old(libs)).contains(c) || breath_of(
                grid(board),
                (x, y),
                c,
            )),
{
    if is_empty_at(board, x, y) {
        return ;
    }
    if x > 0 && is_empty_at(board, x - 1, y) {
        set_mark(libs, x - 1, y);
    }
    if x < board.len() - 1 && is_empty_at(board, x + 1, y) {
        set_mark(libs, x + 1, y);
    }
    if y > 0 && is_empty_at(board, x, y - 1) {
        set_mark(libs, x, y - 1);
    }
    if y < board.len() - 1 && is_empty_at(board, x, y + 1) {
        set_mark(libs, x, y + 1);
    }
}

/// Replaces the recorded liberties of the stone at `(x, y)` where it passes
/// the colour filter.
fn set_liberties(
    board: &mut Vec<Vec<Intersection>>,
    x: usize,
    y: usize,
    color: usize,
    libs: &Vec<(usize, usize)>,
)
    requires
        is_grid(grid(old(board))),
        x < old(board).len(),
        y < old(board).len(),
    ensures
        grid(final(board)) == grid(old(board)).update(
            x as int,
            grid(old(board))[x as int].update(
                y as int,
                relabel(at(grid(old(board)), (x, y)), color, libs@),
            ),
        ),
{
    assert(grid(board)[x as int].len() == grid(board).len());
    let fresh = copy_cells(libs);
    match &mut board[x][y] {
        Intersection::Black(g) => {
            if color == BLACK {
                g.liberties = fresh;
            }
        },
        Intersection::White(g) => {
            if color != BLACK {
                g.liberties = fresh;
            }
        },
        Intersection::Empty => {},
    }
    assert(grid(board) =~~= grid(old(board)).update(
        x as int,
        grid(old(board))[x as int].update(
            y as int,
            relabel(at(grid(old(board)), (x, y)), color, libs@),
        ),
    ));
}

/// The stones that the intersection at `(x, y)` records as its group.
fn recorded_stones(board: &Vec<Vec<Intersection>>, x: usize, y: usize) -> (out: Vec<(usize, usize)>)
    requires
        is_grid(grid(board)),
        x < board.len(),
        y < board.len(),
    ensures
        out@ == at(grid(board), (x, y)).stones(),
{
    assert(grid(board)[x as int].len() == grid(board).len());
    match &board[x][y] {
        Intersection::Black(g) => copy_cells(&g.intersections),
        Intersection::White(g) => copy_cells(&g.intersections),
        Intersection::Empty => Vec::new(),
    }
}

/// Recomputes the liberties of the group that the stone at `(x, y)` records:
/// the union, over the group's stones, of their empty neighbours. The result
/// is written to every stone of the group that passes the colour filter
/// (black stones where `color` is 1, white stones otherwise). No stone is
/// placed or removed, and no recorded group changes.
pub fn get_liberties(x: usize, y: usize, color: usize, board: &mut Vec<Vec<Intersection>>)
    requires
        well_formed(grid(old(board))),
        x < old(board).len(),
        y < old(board).len(),
    ensures
        grid(final(board)) == with_liberties(grid(old(board)), x, y, color),
{
    let ghost g0 = grid(board);
    let stones = recorded_stones(board, x, y);
    let mut marks = no_marks();
    let mut k: usize = 0;
    while k < stones.len()
        invariant
            k <= stones.len(),
            grid(board) == g0,
            well_formed(g0),
            x < g0.len(),
            y < g0.len(),
            stones@ == at(g0, (x, y)).stones(),
            marked(marks) == liberties_upto(g0, stones@, k as int),
        decreases stones.len() - k,
    {
        let s = stones[k];
        assert(within(g0.len(), at(g0, (x, y)).stones()[k as int]));
        let ghost before = marked(marks);
        find_liberties(s.0, s.1, board, &mut marks);
        assert(marked(marks) =~= liberties_upto(g0, stones@, k + 1)) by {
            assert forall|c: (usize, usize)|
                marked(marks).contains(c) <==> liberties_upto(g0, stones@, k + 1).contains(c) by {
                if before.contains(c) {
                    let w = choose|w: int| 0 <= w < k && breath_of(g0, #[trigger] stones@[w], c);
                    assert(breath_of(g0, stones@[w], c));
                }
                if breath_of(g0, s, c) {
                    assert(breath_of(g0, stones@[k as int], c));
                }
                if liberties_upto(g0, stones@, k + 1).contains(c) {
                    let w = choose|w: int| 0 <= w < k + 1 && breath_of(g0, #[trigger] stones@[w], c);
                    if w < k {
                        assert(liberties_upto(g0, stones@, k as int).contains(c));
                    }
                }
            }
        }
        k += 1;
    }
    let libs = collect_marks(&marks);
    let mut k: usize = 0;
    assert(grid(board) =~~= relabelled(g0, stones@, 0, color, libs@));
    while k < stones.len()
        invariant
            k <= stones.len(),
            well_formed(g0),
            x < g0.len(),
            y < g0.len(),
            stones@ == at(g0, (x, y)).stones(),
            board.len() == g0.len(),
            grid(board) == relabelled(g0, stones@, k as int, color, libs@),
        decreases stones.len() - k,
    {
        let s = stones[k];
        assert(within(g0.len(), at(g0, (x, y)).stones()[k as int]));
        let ghost before = grid(board);
        set_liberties(board, s.0, s.1, color, &libs);
        assert(grid(board) =~~= relabelled(g0, stones@, k + 1, color, libs@)) by {
            assert forall|i: int, j: int| 0 <= i < g0.len() && 0 <= j < g0.len() implies grid(board)[i][j]
                == relabelled(g0, stones@, k + 1, color, libs@)[i][j] by {
                let c = (i as usize, j as usize);
                if among(stones@, k as int, c) {
                    let w = choose|w: int| 0 <= w < k && #[trigger] stones@[w] == c;
                    assert(stones@[w] == c);
                }
                if c == s {
                    assert(stones@[k as int] == c);
                }
                if among(stones@, k + 1, c) {
                    let w = choose|w: int| 0 <= w < k + 1 && #[trigger] stones@[w] == c;
                    if w < k {
                        assert(among(stones@, k as int, c));
                    }
                }
            }
        }
        k += 1;
    }
}

/// Whether the intersection at `(x, y)` holds a stone of the given colour.
fn has_color_at(board: &Vec<Vec<Intersection>>, x: usize, y: usize, color: usize) -> (b: bool)
    requires
        is_grid(grid(board)),
        x < board.len(),
        y < board.len(),
    ensures
        b == has_color(at(grid(board), (x, y)), color),
{
    assert(grid(board)[x as int].len() == grid(board).len());
    match &board[x][y] {
        Intersection::Black(_) => color == BLACK,
        Intersection::White(_) => color == WHITE,
        Intersection::Empty => false,
    }
}

/// Whether a coordinate is marked.
fn is_marked(m: &[[bool; COLS]; ROWS], x: usize, y: usize) -> (b: bool)
    requires
        x < ROWS,
        y < COLS,
    ensures
        b == marked(*m).contains((x, y)),
{
    m[x][y]
}

/// Replaces the recorded group of the stone at `(x, y)` where it passes the
/// colour filter.
fn set_group(
    board: &mut Vec<Vec<Intersection>>,
    x: usize,
    y: usize,
    color: usize,
    stones: &Vec<(usize, usize)>,
)
    requires
        is_grid(grid(old(board))),
        x < old(board).len(),
        y < old(board).len(),
    ensures
        grid(final(board)) == grid(old(board)).update(
            x as int,
            grid(old(board))[x as int].update(
                y as int,
                regroup(at(grid(old(board)), (x, y)), color, stones@),
            ),
        ),
{
    assert(grid(board)[x as int].len() == grid(board).len());
    let fresh = copy_cells(stones);
    match &mut board[x][y] {
        Intersection::Black(g) => {
            if color == BLACK {
                g.intersections = fresh;
            }
        },
        Intersection::White(g) => {
            if color != BLACK {
                g.intersections = fresh;
            }
        },
        Intersection::Empty => {},
    }
    assert(grid(board) =~~= grid(old(board)).update(
        x as int,
        grid(old(board))[x as int].update(
            y as int,
            regroup(at(grid(old(board)), (x, y)), color, stones@),
        ),
    ));
}

/// Finds, by flood fill from `(x, y)`, the group of the given colour that
/// holds `(x, y)`: the stones of that colour joined to it through orthogonal
/// neighbours of that colour. The group is recorded on each of its stones.
/// Where `(x, y)` holds no stone of that colour the board stays as it is. No
/// stone is placed or removed, and no recorded liberties change.
pub fn get_intersections(x: usize, y: usize, color: usize, board: &mut Vec<Vec<Intersection>>)
    requires
        is_grid(grid(old(board))),
        x < old(board).len(),
        y < old(board).len(),
    ensures
        grid(final(board)) == with_group(grid(old(board)), x, y, color),
{
    let ghost g0 = grid(board);
    let mut visited = no_marks();
    let mut found = no_marks();
    let mut queue: Vec<(usize, usize)> = Vec::new();
    queue.push((x, y));
    proof {
        lemma_listed_distinct(marked(visited), CELLS as nat);
        assert(queue@[0] == (x, y));
    }
    while queue.len() > 0
        invariant
            is_grid(g0),
            grid(board) == g0,
            x < g0.len(),
            y < g0.len(),
            forall|k: int| 0 <= k < queue.len() ==> within(g0.len(), #[trigger] queue@[k]),
            forall|k: int|
                0 <= k < queue.len() ==> #[trigger] queue@[k] == (x, y) || next_to(
                    marked(found),
                    queue@[k],
                ),
            forall|c: (usize, usize)| #[trigger]
                marked(found).contains(c) ==> marked(visited).contains(c) && connected(
                    g0,
                    color,
                    (x, y),
                    c,
                ),
            forall|c: (usize, usize)| #[trigger]
                marked(visited).contains(c) && has_color(at(g0, c), color) ==> marked(found).contains(
                    c,
                ),
            forall|f: (usize, usize), n: (usize, usize)|
                marked(found).contains(f) && #[trigger] adjacent(f, n) && within(g0.len(), n) && has_color(
                    at(g0, n),
                    color,
                ) ==> marked(found).contains(n) || queue@.contains(n),
            has_color(at(g0, (x, y)), color) ==> marked(found).contains((x, y)) || queue@.contains(
                (x, y),
            ),
            ordered(marked(visited)).len() <= CELLS,
        decreases CELLS - ordered(marked(visited)).len(), queue.len(),
    {
        let ghost queue0 = queue@;
        let ghost found0 = marked(found);
        let ghost visited0 = marked(visited);
        let q = queue.pop().unwrap();
        let cx = q.0;
        let cy = q.1;
        proof {
            lemma_drop_last_holds(queue0);
            assert(queue0[queue0.len() - 1] == q);
            assert(within(g0.len(), q));
            assert forall|k: int| 0 <= k < queue.len() implies within(g0.len(), #[trigger] queue@[k]) by {
                assert(queue@[k] == queue0[k]);
            }
            assert forall|k: int| 0 <= k < queue.len() implies #[trigger] queue@[k] == (x, y)
                || next_to(found0, queue@[k]) by {
                assert(queue@[k] == queue0[k]);
            }
        }
        if !is_marked(&visited, cx, cy) {
            proof {
                lemma_listed_grows(visited0, q, CELLS as nat);
                lemma_listed_distinct(visited0.insert(q), CELLS as nat);
            }
            set_mark(&mut visited, cx, cy);
            if has_color_at(board, cx, cy, color) {
                proof {
                    if q == (x, y) {
                        lemma_connected_self(g0, color, q);
                    } else {
                        assert(next_to(found0, q));
                        let f = choose|f: (usize, usize)| #[trigger]
                            found0.contains(f) && adjacent(f, q);
                        lemma_connected_step(g0, color, (x, y), f, q);
                    }
                }
                set_mark(&mut found, cx, cy);
                let ghost queue1 = queue@;
                if cx > 0 {
                    proof {
                        lemma_push_holds(queue@, ((cx - 1) as usize, cy));
                    }
                    queue.push((cx - 1, cy));
                }
                let ghost queue2 = queue@;
                if cx < board.len() - 1 {
                    proof {
                        lemma_push_holds(queue@, ((cx + 1) as usize, cy));
                    }
                    queue.push((cx + 1, cy));
                }
                let ghost queue3 = queue@;
                if cy > 0 {
                    proof {
                        lemma_push_holds(queue@, (cx, (cy - 1) as usize));
                    }
                    queue.push((cx, cy - 1));
                }
                let ghost queue4 = queue@;
                if cy < board.len() - 1 {
                    proof {
                        lemma_push_holds(queue@, (cx, (cy + 1) as usize));
                    }
                    queue.push((cx, cy + 1));
                }
                proof {
                    assert forall|v: (usize, usize)| queue1.contains(v) implies queue@.contains(v) by {
                        assert(queue2.contains(v));
                        assert(queue3.contains(v));
                        assert(queue4.contains(v));
                    }
                    assert forall|n: (usize, usize)|
                        adjacent(q, n) && within(g0.len(), n) implies queue@.contains(n) by {
                        if n.0 + 1 == cx {
                            assert(queue2.contains(n));
                            assert(queue3.contains(n));
                            assert(queue4.contains(n));
                        } else if cx + 1 == n.0 {
                            assert(queue3.contains(n));
                            assert(queue4.contains(n));
                        } else if n.1 + 1 == cy {
                            assert(queue4.contains(n));
                        }
                    }
                    assert forall|k: int| 0 <= k < queue.len() implies within(
                        g0.len(),
                        #[trigger] queue@[k],
                    ) by {
                        if k < queue1.len() {
                            assert(queue@[k] == queue1[k]);
                        }
                    }
                    assert forall|k: int| 0 <= k < queue.len() implies #[trigger] queue@[k] == (x, y)
                        || next_to(marked(found), queue@[k]) by {
                        if k < queue1.len() {
                            assert(queue@[k] == queue1[k]);
                            if queue1[k] != (x, y) {
                                let f = choose|f: (usize, usize)| #[trigger]
                                    found0.contains(f) && adjacent(f, queue1[k]);
                                assert(marked(found).contains(f));
                            }
                        } else {
                            assert(marked(found).contains(q));
                            assert(adjacent(q, queue@[k]));
                        }
                    }
                }
            }
        }
    }
    proof {
        assert forall|f: (usize, usize), n: (usize, usize)|
            marked(found).contains(f) && #[trigger] adjacent(f, n) && within(g0.len(), n) && has_color(
                at(g0, n),
                color,
            ) implies marked(found).contains(n) by {
            assert(!queue@.contains(n));
        }
        assert(!queue@.contains((x, y)));
        lemma_group_is_closure(g0, x, y, color, marked(found));
    }
    let stones = collect_marks(&found);
    proof {
        lemma_ordered(marked(found));
        assert forall|c: (usize, usize)| #[trigger] stones@.contains(c) implies within(g0.len(), c) by {
            crate::chain::lemma_connected_color(g0, color, (x, y), c);
        }
    }
    let mut k: usize = 0;
    assert(grid(board) =~~= regrouped(g0, stones@, 0, color, stones@));
    while k < stones.len()
        invariant
            k <= stones.len(),
            is_grid(g0),
            forall|c: (usize, usize)| #[trigger] stones@.contains(c) ==> within(g0.len(), c),
            board.len() == g0.len(),
            grid(board) == regrouped(g0, stones@, k as int, color, stones@),
        decreases stones.len() - k,
    {
        let s = stones[k];
        assert(stones@.contains(stones@[k as int]));
        set_group(board, s.0, s.1, color, &stones);
        assert(grid(board) =~~= regrouped(g0, stones@, k + 1, color, stones@)) by {
            assert forall|i: int, j: int| 0 <= i < g0.len() && 0 <= j < g0.len() implies grid(board)[i][j]
                == regrouped(g0, stones@, k + 1, color, stones@)[i][j] by {
                let c = (i as usize, j as usize);
                if among(stones@, k as int, c) {
                    let w = choose|w: int| 0 <= w < k && #[trigger] stones@[w] == c;
                    assert(stones@[w] == c);
                }
                if c == s {
                    assert(stones@[k as int] == c);
                }
                if among(stones@, k + 1, c) {
                    let w = choose|w: int| 0 <= w < k + 1 && #[trigger] stones@[w] == c;
                    if w < k {
                        assert(among(stones@, k as int, c));
                    }
                }
            }
        }
        k += 1;
    }
    assert(grid(board) =~~= with_group(g0, x, y, color)) by {
        assert forall|i: int, j: int| 0 <= i < g0.len() && 0 <= j < g0.len() implies grid(board)[i][j]
            == with_group(g0, x, y, color)[i][j] by {
            let c = (i as usize, j as usize);
            if among(stones@, stones@.len() as int, c) {
                let w = choose|w: int| 0 <= w < stones@.len() && #[trigger] stones@[w] == c;
                assert(stones@.contains(c));
            }
            if stones@.contains(c) {
                let w = choose|w: int| 0 <= w < stones@.len() && stones@[w] == c;
                assert(stones@[w] == c);
            }
        }
    }
}

/// Appends a list of coordinates to another.
fn append_cells(dst: &mut Vec<(usize, usize)>, src: &Vec<(usize, usize)>)
    ensures
        final(dst)@ == old(dst)@ + src@,
{
    let mut k: usize = 0;
    while k < src.len()
        invariant
            k <= src.len(),
            dst@ == old(dst)@ + src@.take(k as int),
        decreases src.len() - k,
    {
        dst.push(src[k]);
        assert(dst@ =~= old(dst)@ + src@.take(k + 1));
        k += 1;
    }
    assert(src@.take(src.len() as int) =~= src@);
}

/// A copy of an intersection.
pub fn copy_point(p: &Intersection) -> (out: Intersection)
    ensures
        out@ == p@,
{
    match p {
        Intersection::Empty => Intersection::Empty,
        Intersection::Black(g) => Intersection::Black(
            Group {
                intersections: copy_cells(&g.intersections),
                liberties: copy_cells(&g.liberties),
            },
        ),
        Intersection::White(g) => Intersection::White(
            Group {
                intersections: copy_cells(&g.intersections),
                liberties: copy_cells(&g.liberties),
            },
        ),
    }
}

/// A copy of a board.
pub fn copy_board(board: &Vec<Vec<Intersection>>) -> (out: Vec<Vec<Intersection>>)
    ensures
        grid(&out) == grid(board),
{
    let mut out: Vec<Vec<Intersection>> = Vec::new();
    let mut i: usize = 0;
    while i < board.len()
        invariant
            i <= board.len(),
            out.len() == i,
            forall|r: int| 0 <= r < i ==> #[trigger] grid(&out)[r] == grid(board)[r],
        decreases board.len() - i,
    {
        let mut row: Vec<Intersection> = Vec::new();
        let mut j: usize = 0;
        while j < board[i].len()
            invariant
                i < board.len(),
                j <= board[i as int].len(),
                row.len() == j,
                forall|c: int| 0 <= c < j ==> #[trigger] row@[c]@ == board@[i as int]@[c]@,
            decreases board[i as int].len() - j,
        {
            row.push(copy_point(&board[i][j]));
            j += 1;
        }
        let ghost before = grid(&out);
        out.push(row);
        proof {
            assert forall|r: int| 0 <= r < i + 1 implies #[trigger] grid(&out)[r] == grid(board)[r] by {
                if r < i {
                    assert(grid(&out)[r] =~= before[r]);
                } else {
                    assert(grid(&out)[r] =~= grid(board)[r]);
                }
            }
        }
        i += 1;
    }
    assert(grid(&out) =~= grid(board));
    out
}

/// A full board without stones.
pub fn empty_board() -> (out: Vec<Vec<Intersection>>)
    ensures
        grid(&out) == empty_grid(ROWS as nat),
{
    empty_board_of(ROWS)
}

/// A board of `size` rows and `size` columns without stones.
pub fn empty_board_of(size: usize) -> (out: Vec<Vec<Intersection>>)
    ensures
        grid(&out) == empty_grid(size as nat),
{
    let ghost goal = empty_grid(size as nat);
    let mut out: Vec<Vec<Intersection>> = Vec::new();
    let mut i: usize = 0;
    while i < size
        invariant
            i <= size,
            out.len() == i,
            goal == empty_grid(size as nat),
            forall|r: int| 0 <= r < i ==> #[trigger] grid(&out)[r] == goal[r],
        decreases size - i,
    {
        let mut row: Vec<Intersection> = Vec::new();
        let mut j: usize = 0;
        while j < size
            invariant
                j <= size,
                row.len() == j,
                forall|c: int| 0 <= c < j ==> #[trigger] row@[c]@ == Point::Empty,
            decreases size - j,
        {
            row.push(Intersection::Empty);
            j += 1;
        }
        let ghost before = grid(&out);
        out.push(row);
        proof {
            assert forall|r: int| 0 <= r < i + 1 implies #[trigger] grid(&out)[r] == goal[r] by {
                if r < i {
                    assert(grid(&out)[r] =~= before[r]);
                } else {
                    assert(grid(&out)[r] =~= goal[r]);
                }
            }
        }
        i += 1;
    }
    assert(grid(&out) =~= goal);
    out
}

/// Replaces the intersection at `(x, y)`.
fn set_point(board: &mut Vec<Vec<Intersection>>, x: usize, y: usize, p: Intersection)
    requires
        is_grid(grid(old(board))),
        x < old(board).len(),
        y < old(board).len(),
    ensures
        grid(final(board)) == put(grid(old(board)), (x, y), p@),
{
    assert(grid(board)[x as int].len() == grid(board).len());
    board[x][y] = p;
    assert(grid(board) =~~= put(grid(old(board)), (x, y), p@));
}

/// A stone as it is set down: black for colour 1, white for any other.
fn fresh_stone(color: usize) -> (p: Intersection)
    ensures
        p@ == new_stone(color),
{
    let group = Group { intersections: Vec::new(), liberties: Vec::new() };
    if color == BLACK {
        Intersection::Black(group)
    } else {
        Intersection::White(group)
    }
}

/// The colour that a colour plays against.
fn other_color(color: usize) -> (opp: usize)
    ensures
        opp == opponent(color),
{
    if color == BLACK {
        WHITE
    } else if color == WHITE {
        BLACK
    } else {
        EMPTY
    }
}

/// One more neighbour in a sweep.
proof fn lemma_sweep_push(g: Grid, ns: Seq<(usize, usize)>, n: (usize, usize), opp: usize)
    ensures
        sweep_grid(g, ns.push(n), opp) == with_liberties(sweep_grid(g, ns, opp), n.0, n.1, opp),
        sweep_dead(g, ns.push(n), opp) == sweep_dead(g, ns, opp) + doomed(
            sweep_grid(g, ns.push(n), opp),
            n,
            opp,
        ),
{
    assert(ns.push(n).drop_last() =~= ns);
}

/// Recomputes the liberties of the group recorded at `(row, col)` and, where
/// that point holds a stone of colour `opp` left without liberties, marks the
/// stones of its group for removal.
fn check_remove(
    row: usize,
    col: usize,
    opp: usize,
    board: &mut Vec<Vec<Intersection>>,
    to_remove: &mut Vec<(usize, usize)>,
)
    requires
        well_formed(grid(old(board))),
        row < old(board).len(),
        col < old(board).len(),
    ensures
        grid(final(board)) == with_liberties(grid(old(board)), row, col, opp),
        final(to_remove)@ == old(to_remove)@ + doomed(grid(final(board)), (row, col), opp),
{
    get_liberties(row, col, opp, board);
    proof {
        lemma_with_liberties_keeps(grid(old(board)), row, col, opp);
    }
    assert(grid(board)[row as int].len() == grid(board).len());
    match &board[row][col] {
        Intersection::Black(g) => {
            if opp == BLACK && g.liberties.len() == 0 {
                append_cells(to_remove, &g.intersections);
            }
        },
        Intersection::White(g) => {
            if opp == WHITE && g.liberties.len() == 0 {
                append_cells(to_remove, &g.intersections);
            }
        },
        Intersection::Empty => {},
    }
    assert(to_remove@ =~= old(to_remove)@ + doomed(grid(board), (row, col), opp));
}

/// Places a stone at `(x, y)` and records its group and that group's liberties.
fn settle(x: usize, y: usize, color: usize, board: &mut Vec<Vec<Intersection>>)
    requires
        well_formed(grid(old(board))),
        x < old(board).len(),
        y < old(board).len(),
    ensures
        grid(final(board)) == settled(grid(old(board)), x, y, color),
{
    proof {
        lemma_settled_sound(grid(board), x, y, color);
    }
    set_point(board, x, y, fresh_stone(color));
    get_intersections(x, y, color, board);
    get_liberties(x, y, color, board);
}

/// The orthogonal neighbours of `(x, y)` on a board of `size` rows and
/// `size` columns: above, below, left, right.
fn neighbours_of(x: usize, y: usize, size: usize) -> (ns: Vec<(usize, usize)>)
    requires
        x < size,
        y < size,
    ensures
        ns@ == neighbours(size as nat, x, y),
{
    let mut ns: Vec<(usize, usize)> = Vec::new();
    if x > 0 {
        ns.push((x - 1, y));
    }
    if x < size - 1 {
        ns.push((x + 1, y));
    }
    if y > 0 {
        ns.push((x, y - 1));
    }
    if y < size - 1 {
        ns.push((x, y + 1));
    }
    assert(ns@ =~= neighbours(size as nat, x, y));
    ns
}

/// Recomputes the liberties of the groups at the four neighbours of `(x, y)`
/// and collects the stones of those of colour `opp` that are left without liberties.
fn sweep(x: usize, y: usize, opp: usize, board: &mut Vec<Vec<Intersection>>) -> (to_remove: Vec<
    (usize, usize),
>)
    requires
        well_formed(grid(old(board))),
        x < old(board).len(),
        y < old(board).len(),
    ensures
        grid(final(board)) == sweep_grid(
            grid(old(board)),
            neighbours(old(board).len() as nat, x, y),
            opp,
        ),
        to_remove@ == sweep_dead(grid(old(board)), neighbours(old(board).len() as nat, x, y), opp),
{
    let ghost g1 = grid(board);
    let ns = neighbours_of(x, y, board.len());
    let mut to_remove: Vec<(usize, usize)> = Vec::new();
    let mut k: usize = 0;
    proof {
        lemma_neighbours_on_board(g1.len(), x, y);
        assert(to_remove@ =~= sweep_dead(g1, ns@.take(0), opp));
    }
    while k < ns.len()
        invariant
            k <= ns.len(),
            well_formed(g1),
            board.len() == g1.len(),
            forall|w: int| 0 <= w < ns.len() ==> within(g1.len(), #[trigger] ns@[w]),
            well_formed(grid(board)),
            grid(board) == sweep_grid(g1, ns@.take(k as int), opp),
            to_remove@ == sweep_dead(g1, ns@.take(k as int), opp),
        decreases ns.len() - k,
    {
        let n = ns[k];
        proof {
            lemma_sweep_push(g1, ns@.take(k as int), n, opp);
            assert(ns@.take(k + 1) =~= ns@.take(k as int).push(n));
            lemma_sweep_keeps(g1, ns@.take(k + 1), opp);
        }
        check_remove(n.0, n.1, opp, board, &mut to_remove);
        k += 1;
    }
    assert(ns@.take(ns.len() as int) =~= ns@);
    to_remove
}

/// Makes every listed intersection empty.
fn clear_cells(board: &mut Vec<Vec<Intersection>>, dead: &Vec<(usize, usize)>)
    requires
        is_grid(grid(old(board))),
        forall|w: int| 0 <= w < dead.len() ==> within(old(board).len() as nat, #[trigger] dead@[w]),
    ensures
        grid(final(board)) == cleared(grid(old(board)), dead@, dead.len() as int),
{
    let ghost g2 = grid(board);
    let mut k: usize = 0;
    assert(grid(board) =~~= cleared(g2, dead@, 0));
    while k < dead.len()
        invariant
            k <= dead.len(),
            is_grid(g2),
            forall|w: int| 0 <= w < dead.len() ==> within(g2.len(), #[trigger] dead@[w]),
            board.len() == g2.len(),
            grid(board) == cleared(g2, dead@, k as int),
        decreases dead.len() - k,
    {
        let c = dead[k];
        set_point(board, c.0, c.1, Intersection::Empty);
        assert(grid(board) =~~= cleared(g2, dead@, k + 1)) by {
            assert forall|i: int, j: int| 0 <= i < g2.len() && 0 <= j < g2.len() implies grid(board)[i][j]
                == cleared(g2, dead@, k + 1)[i][j] by {
                let d = (i as usize, j as usize);
                if among(dead@, k as int, d) {
                    let w = choose|w: int| 0 <= w < k && #[trigger] dead@[w] == d;
                    assert(dead@[w] == d);
                }
                if d == c {
                    assert(dead@[k as int] == d);
                }
                if among(dead@, k + 1, d) {
                    let w = choose|w: int| 0 <= w < k + 1 && #[trigger] dead@[w] == d;
                    if w < k {
                        assert(among(dead@, k as int, d));
                    }
                }
            }
        }
        k += 1;
    }
}

/// The coordinates of a list, each once, in row-major order.
fn list_once(cells: &Vec<(usize, usize)>) -> (out: Vec<(usize, usize)>)
    requires
        forall|k: int| 0 <= k < cells.len() ==> in_frame(#[trigger] cells@[k]),
    ensures
        out@ == ordered(cells@.to_set()),
{
    let mut marks = no_marks();
    let mut k: usize = 0;
    assert(marked(marks) =~= cells@.take(0).to_set());
    while k < cells.len()
        invariant
            k <= cells.len(),
            forall|w: int| 0 <= w < cells.len() ==> in_frame(#[trigger] cells@[w]),
            marked(marks) == cells@.take(k as int).to_set(),
        decreases cells.len() - k,
    {
        let c = cells[k];
        proof {
            lemma_push_holds(cells@.take(k as int), c);
            assert(cells@.take(k + 1) =~= cells@.take(k as int).push(c));
        }
        set_mark(&mut marks, c.0, c.1);
        assert(marked(marks) =~= cells@.take(k + 1).to_set());
        k += 1;
    }
    assert(cells@.take(cells.len() as int) =~= cells@);
    collect_marks(&marks)
}

/// Plays a stone of the given colour (black for 1, white for any other) at
/// `(x, y)` on the board, without asking whether the move is legal: the
/// stone is placed, its group and that group's liberties are recorded, the
/// liberties of the groups at the four neighbours are recomputed, and the
/// stones of each neighbouring group of the opposing colour that is left
/// without liberties are taken off. Returns the stones taken off, each
/// once, in row-major order.
pub fn simulate_move(x: usize, y: usize, color: usize, board: &mut Vec<Vec<Intersection>>) -> (removed:
    Vec<(usize, usize)>)
    requires
        well_formed(grid(old(board))),
        x < old(board).len(),
        y < old(board).len(),
    ensures
        grid(final(board)) == moved(grid(old(board)), x, y, color),
        removed@ == captured(grid(old(board)), x, y, color),
        removed@.no_duplicates(),
        forall|c: (usize, usize)| #[trigger]
            removed@.contains(c) <==> found_dead(grid(old(board)), x, y, color).contains(c),
        final(board).len() == old(board).len(),
        well_formed(grid(final(board))),
        sound(grid(old(board))) && (color == BLACK || color == WHITE) ==> sound(grid(final(board))),
{
    proof {
        lemma_settled_sound(grid(board), x, y, color);
        lemma_moved_sound(grid(board), x, y, color);
        lemma_neighbours_on_board(grid(board).len(), x, y);
        lemma_sweep_keeps(
            settled(grid(board), x, y, color),
            neighbours(grid(board).len(), x, y),
            opponent(color),
        );
    }
    settle(x, y, color, board);
    let found = sweep(x, y, other_color(color), board);
    clear_cells(board, &found);
    list_once(&found)
}

/// The hasher of positions: one key for each intersection and state, the
/// board it last took in with that board's hash, and the hashes of all
/// positions that the game has passed through.
///
/// The hash covers the whole board, and the history is never shortened. A
/// move is therefore refused whenever it would bring back any position of
/// the game so far, whoever is to move: this is positional superko. It is
/// stricter than the classical ko rule, which forbids only the immediate
/// recapture, and it is meant to be.
#[derive(Debug)]
pub struct Zobrist {
    positions: [[[u64; 3]; COLS]; ROWS],
    board: Vec<Vec<Intersection>>,
    hash: u64,
    prev_hashes: HashSet<u64>,
}

/// Mathematical value of a [`Zobrist`].
pub struct ZobristView {
    pub keys: [[[u64; 3]; COLS]; ROWS],
    pub board: Grid,
    pub hash: u64,
    pub seen: Set<u64>,
}

impl ZobristView {
    /// The remembered board has the board's dimensions, the remembered hash
    /// is that board's hash, and the history holds it.
    pub open spec fn wf(self) -> bool {
        &&& is_grid(self.board)
        &&& self.hash == position_hash(self.keys, self.board)
        &&& self.seen.contains(self.hash)
    }

    /// Whether the game has already passed through the position `g`.
    pub open spec fn repeats(self, g: Grid) -> bool {
        self.seen.contains(position_hash(self.keys, g))
    }

    /// The hasher after it was asked to take in `g`: unchanged where `g`
    /// repeats a position, else remembering `g` and holding its hash.
    pub open spec fn updated(self, g: Grid) -> ZobristView {
        if self.repeats(g) {
            self
        } else {
            ZobristView {
                keys: self.keys,
                board: g,
                hash: position_hash(self.keys, g),
                seen: self.seen.insert(position_hash(self.keys, g)),
            }
        }
    }

    /// The hasher of a game that starts on the empty board of `n` rows and
    /// `n` columns with the given keys.
    pub open spec fn initial(keys: [[[u64; 3]; COLS]; ROWS], n: nat) -> ZobristView {
        ZobristView {
            keys,
            board: empty_grid(n),
            hash: position_hash(keys, empty_grid(n)),
            seen: Set::empty().insert(position_hash(keys, empty_grid(n))),
        }
    }
}

impl View for Zobrist {
    type V = ZobristView;

    closed spec fn view(&self) -> ZobristView {
        ZobristView {
            keys: self.positions,
            board: grid(&self.board),
            hash: self.hash,
            seen: self.prev_hashes@,
        }
    }
}

/// The thread-local random number generator of `rand`. Nothing is known of
/// what it holds.
#[verifier::external_type_specification]
#[verifier::external_body]
pub struct ExThreadRng(rand::rngs::ThreadRng);

/// `rand::thread_rng` hands out the thread's generator. Nothing is claimed
/// of it. It takes no argument; it fails only where the operating system
/// has no randomness to seed the generator with.
pub assume_specification[ rand::thread_rng ]() -> (rng: rand::rngs::ThreadRng)
;

/// Draws one 64-bit value from the generator with `rand::Rng::gen`. The
/// value depends on chance: nothing is claimed of it. The call fails only
/// where the generator has to be seeded anew and the operating system has
/// no randomness to seed it with; no argument can cause or prevent that.
#[verifier::external_body]
fn draw_key(rng: &mut rand::rngs::ThreadRng) -> (key: u64) {
    rng.gen()
}

/// 0 for an empty intersection, else the colour number of its stone.
fn state_at(board: &Vec<Vec<Intersection>>, x: usize, y: usize) -> (s: usize)
    requires
        is_grid(grid(board)),
        x < board.len(),
        y < board.len(),
    ensures
        s == at(grid(board), (x, y)).state(),
        s < 3,
{
    assert(grid(board)[x as int].len() == grid(board).len());
    match &board[x][y] {
        Intersection::Empty => EMPTY,
        Intersection::Black(_) => BLACK,
        Intersection::White(_) => WHITE,
    }
}

/// A copy of a set of hashes.
fn copy_hashes(s: &HashSet<u64>) -> (out: HashSet<u64>)
    ensures
        out@ == s@,
{
    let mut out: HashSet<u64> = HashSet::new();
    for h in it: s.iter()
        invariant
            forall|v: u64| #[trigger] out@.contains(v) ==> s@.contains(v),
            forall|k: int| 0 <= k < it.index() ==> out@.contains(*#[trigger] it.seq()[k]),
            forall|k: int| 0 <= k < it.seq().len() ==> s@.contains(#[trigger] it.seq().unref()[k]),
            forall|v: u64| #[trigger]
                s@.contains(v) ==> exists|k: int|
                    0 <= k < it.seq().len() && *#[trigger] it.seq()[k] == v,
    {
        assert(it.seq().unref()[it.index() as int] == *h);
        out.insert(*h);
    }
    assert(out@ =~= s@);
    out
}

/// The hash of a board under the given keys.
fn hash_board(positions: &[[[u64; 3]; COLS]; ROWS], board: &Vec<Vec<Intersection>>) -> (hash: u64)
    requires
        is_grid(grid(board)),
    ensures
        hash == position_hash(*positions, grid(board)),
{
    let ghost g = grid(board);
    let mut hash: u64 = 0;
    let mut i: usize = 0;
    while i < ROWS
        invariant
            i <= ROWS,
            is_grid(g),
            g == grid(board),
            hash == hash_upto(*positions, g, (i * 19) as nat),
        decreases ROWS - i,
    {
        let mut j: usize = 0;
        while j < COLS
            invariant
                i < ROWS,
                j <= COLS,
                is_grid(g),
                g == grid(board),
                hash == hash_upto(*positions, g, (i * 19 + j) as nat),
            decreases COLS - j,
        {
            assert(cell_at(i * 19 + j) == (i, j));
            if i < board.len() && j < board.len() {
                let state = state_at(board, i, j);
                hash ^= positions[i][j][state];
            } else {
                assert(hash ^ 0 == hash) by (bit_vector);
            }
            j += 1;
        }
        i += 1;
    }
    hash
}

/// Whether every coordinate of a list lies on a board of `size` rows and
/// `size` columns.
fn cells_on_board(v: &Vec<(usize, usize)>, size: usize) -> (ok: bool)
    ensures
        ok == forall|k: int| 0 <= k < v.len() ==> within(size as nat, #[trigger] v@[k]),
{
    let mut k: usize = 0;
    while k < v.len()
        invariant
            k <= v.len(),
            forall|w: int| 0 <= w < k ==> within(size as nat, #[trigger] v@[w]),
        decreases v.len() - k,
    {
        if v[k].0 >= size || v[k].1 >= size {
            assert(!within(size as nat, v@[k as int]));
            return false;
        }
        k += 1;
    }
    true
}

/// Whether a list holds a coordinate.
fn holds_cell(v: &Vec<(usize, usize)>, c: (usize, usize)) -> (ok: bool)
    ensures
        ok == v@.contains(c),
{
    let mut k: usize = 0;
    while k < v.len()
        invariant
            k <= v.len(),
            forall|w: int| 0 <= w < k ==> v@[w] != c,
        decreases v.len() - k,
    {
        if v[k].0 == c.0 && v[k].1 == c.1 {
            assert(v@[k as int] == c);
            return true;
        }
        k += 1;
    }
    false
}

/// What soundness asks of the point at `c` of a board of `n` rows and `n`
/// columns: its recorded stones lie on the board and, where it holds a
/// stone, that stone is one of them.
pub open spec fn point_sound(p: Point, c: (usize, usize), n: nat) -> bool {
    &&& forall|k: int| 0 <= k < p.stones().len() ==> within(n, #[trigger] p.stones()[k])
    &&& !(p is Empty) ==> p.stones().contains(c)
}

/// A grid is sound exactly if it has the dimensions of a board and each of
/// its points is sound.
pub proof fn lemma_sound_by_points(g: Grid)
    ensures
        sound(g) == (is_grid(g) && forall|c: (usize, usize)| #[trigger]
            within(g.len(), c) ==> point_sound(at(g, c), c, g.len())),
{
    if sound(g) {
        assert forall|c: (usize, usize)| #[trigger] within(g.len(), c) implies point_sound(
            at(g, c),
            c,
            g.len(),
        ) by {
            assert forall|k: int| 0 <= k < at(g, c).stones().len() implies within(
                g.len(),
                #[trigger] at(g, c).stones()[k],
            ) by {}
        }
    }
    if is_grid(g) && forall|c: (usize, usize)| #[trigger]
        within(g.len(), c) ==> point_sound(at(g, c), c, g.len()) {
        assert forall|c: (usize, usize), k: int|
            within(g.len(), c) && 0 <= k < at(g, c).stones().len() implies within(
            g.len(),
            #[trigger] at(g, c).stones()[k],
        ) by {
            assert(point_sound(at(g, c), c, g.len()));
        }
        assert forall|c: (usize, usize)| within(g.len(), c) && !(#[trigger] at(g, c) is Empty) implies at(
            g,
            c,
        ).stones().contains(c) by {
            assert(point_sound(at(g, c), c, g.len()));
        }
    }
}

/// Whether an intersection at `c` of a board of `size` rows and `size`
/// columns is sound.
fn point_is_sound(p: &Intersection, c: (usize, usize), size: usize) -> (ok: bool)
    ensures
        ok == point_sound(p@, c, size as nat),
{
    match p {
        Intersection::Empty => true,
        Intersection::Black(g) => cells_on_board(&g.intersections, size) && holds_cell(
            &g.intersections,
            c,
        ),
        Intersection::White(g) => cells_on_board(&g.intersections, size) && holds_cell(
            &g.intersections,
            c,
        ),
    }
}

/// Whether a board is sound: it has the dimensions of a board, every
/// recorded stone lies on the board, and every stone belongs to the group
/// that it records.
pub fn is_sound(board: &Vec<Vec<Intersection>>) -> (ok: bool)
    ensures
        ok == sound(grid(board)),
{
    let ghost g = grid(board);
    proof {
        lemma_sound_by_points(g);
    }
    let size = board.len();
    if !is_valid_size(size) {
        return false;
    }
    let mut i: usize = 0;
    while i < size
        invariant
            i <= size,
            size == board.len(),
            valid_size(size as nat),
            g == grid(board),
            forall|r: int| 0 <= r < i ==> (#[trigger] g[r]).len() == size,
            forall|c: (usize, usize)| #[trigger]
                within(g.len(), c) && c.0 < i ==> point_sound(at(g, c), c, g.len()),
        decreases size - i,
    {
        if board[i].len() != size {
            assert(g[i as int].len() != size);
            return false;
        }
        let mut j: usize = 0;
        while j < size
            invariant
                i < size,
                j <= size,
                size == board.len(),
                board@[i as int]@.len() == size,
                g == grid(board),
                forall|c: (usize, usize)| #[trigger]
                    within(g.len(), c) && (c.0 < i || (c.0 == i && c.1 < j)) ==> point_sound(
                        at(g, c),
                        c,
                        g.len(),
                    ),
            decreases size - j,
        {
            if !point_is_sound(&board[i][j], (i, j), size) {
                assert(within(g.len(), (i, j)));
                assert(!point_sound(at(g, (i, j)), (i, j), g.len()));
                return false;
            }
            j += 1;
        }
        i += 1;
    }
    true
}

/// One key for each intersection of the frame and each state, drawn at random.
fn draw_keys() -> (positions: [[[u64; 3]; COLS]; ROWS]) {
    let mut positions = [[[0u64; 3]; COLS]; ROWS];
    let mut rng = rand::thread_rng();
    let mut i: usize = 0;
    while i < ROWS
        invariant
            i <= ROWS,
        decreases ROWS - i,
    {
        let mut j: usize = 0;
        while j < COLS
            invariant
                i < ROWS,
                j <= COLS,
            decreases COLS - j,
        {
            let mut k: usize = 0;
            while k < 3
                invariant
                    i < ROWS,
                    j < COLS,
                    k <= 3,
                decreases 3 - k,
            {
                positions[i][j][k] = draw_key(&mut rng);
                k += 1;
            }
            j += 1;
        }
        i += 1;
    }
    positions
}

impl Zobrist {
    /// A hasher for a new game on the full board, with keys drawn at
    /// random: it remembers the empty board, and its history holds the hash
    /// of the empty board alone.
    pub fn new() -> (z: Zobrist)
        ensures
            z@.wf(),
            z@ == ZobristView::initial(z@.keys, ROWS as nat),
    {
        Zobrist::with_keys(draw_keys(), ROWS)
    }

    /// A hasher for a new game on a board of `size` rows and `size`
    /// columns, with keys drawn at random.
    pub fn of_size(size: usize) -> (z: Zobrist)
        requires
            valid_size(size as nat),
        ensures
            z@.wf(),
            z@ == ZobristView::initial(z@.keys, size as nat),
    {
        Zobrist::with_keys(draw_keys(), size)
    }

    /// A hasher for a new game with the given keys on a board of `size`
    /// rows and `size` columns: it remembers the empty board, and its
    /// history holds the hash of the empty board alone.
    pub fn with_keys(positions: [[[u64; 3]; COLS]; ROWS], size: usize) -> (z: Zobrist)
        requires
            valid_size(size as nat),
        ensures
            z@.wf(),
            z@ == ZobristView::initial(positions, size as nat),
    {
        let board = empty_board_of(size);
        let hash = hash_board(&positions, &board);
        let mut prev_hashes: HashSet<u64> = HashSet::new();
        prev_hashes.insert(hash);
        Zobrist { positions, board, hash, prev_hashes }
    }

    /// A hasher put together from its parts: the keys, the board it
    /// remembers and the hashes of the positions passed through. The hash
    /// of the board is computed afresh, and the history holds it whether or
    /// not the list does.
    pub fn restore(
        positions: [[[u64; 3]; COLS]; ROWS],
        board: Vec<Vec<Intersection>>,
        history: &Vec<u64>,
    ) -> (z: Zobrist)
        requires
            is_grid(grid(&board)),
        ensures
            z@.wf(),
            z@ == (ZobristView {
                keys: positions,
                board: grid(&board),
                hash: position_hash(positions, grid(&board)),
                seen: history@.to_set().insert(position_hash(positions, grid(&board))),
            }),
    {
        let hash = hash_board(&positions, &board);
        let mut prev_hashes: HashSet<u64> = HashSet::new();
        let mut k: usize = 0;
        while k < history.len()
            invariant
                k <= history.len(),
                prev_hashes@ == history@.take(k as int).to_set(),
            decreases history.len() - k,
        {
            prev_hashes.insert(history[k]);
            proof {
                let a = history@.take(k as int);
                let b = history@.take(k + 1);
                assert(b =~= a.push(history@[k as int]));
                assert forall|v: u64| b.to_set().contains(v) == a.to_set().insert(
                    history@[k as int],
                ).contains(v) by {
                    if a.contains(v) {
                        let w = choose|w: int| 0 <= w < a.len() && a[w] == v;
                        assert(b[w] == v);
                    }
                    if v == history@[k as int] {
                        assert(b[k as int] == v);
                    }
                    if b.contains(v) {
                        let w = choose|w: int| 0 <= w < b.len() && b[w] == v;
                        if w < k {
                            assert(a[w] == v);
                        }
                    }
                }
                assert(b.to_set() =~= a.to_set().insert(history@[k as int]));
            }
            k += 1;
        }
        assert(history@.take(history.len() as int) =~= history@);
        prev_hashes.insert(hash);
        Zobrist { positions, board, hash, prev_hashes }
    }

    /// The number of rows, and of columns, of the board that the hasher
    /// remembers.
    pub fn size(&self) -> (n: usize)
        ensures
            n == self@.board.len(),
    {
        self.board.len()
    }

    /// The keys of the hasher.
    pub fn keys(&self) -> (k: [[[u64; 3]; COLS]; ROWS])
        ensures
            k == self@.keys,
    {
        self.positions
    }

    /// A copy of the board that the hasher remembers.
    pub fn remembered(&self) -> (b: Vec<Vec<Intersection>>)
        ensures
            grid(&b) == self@.board,
    {
        copy_board(&self.board)
    }

    /// The hashes of the positions passed through, each once, in no
    /// particular order.
    pub fn history(&self) -> (out: Vec<u64>)
        ensures
            out@.to_set() == self@.seen,
            out@.no_duplicates(),
    {
        let mut out: Vec<u64> = Vec::new();
        let s = &self.prev_hashes;
        for h in it: s.iter()
            invariant
                out@ == it.seq().unref().take(it.index() as int),
                it.seq().no_duplicates(),
                out@.no_duplicates(),
                forall|v: u64| #[trigger] out@.contains(v) ==> s@.contains(v),
                forall|k: int| 0 <= k < it.index() ==> out@.contains(*#[trigger] it.seq()[k]),
                forall|k: int| 0 <= k < it.seq().len() ==> s@.contains(#[trigger] it.seq().unref()[k]),
                forall|v: u64| #[trigger]
                    s@.contains(v) ==> exists|k: int|
                        0 <= k < it.seq().len() && *#[trigger] it.seq()[k] == v,
        {
            assert(it.seq().unref()[it.index() as int] == *h);
            proof {
                lemma_push_holds(out@, *h);
                assert forall|k: int| 0 <= k < out@.len() implies out@[k] != *h by {
                    assert(out@[k] == *it.seq()[k]);
                    assert(it.seq()[k] != it.seq()[it.index() as int]);
                }
            }
            out.push(*h);
            assert(out@ =~= it.seq().unref().take(it.index() + 1));
        }
        assert(out@.to_set() =~= s@);
        out
    }

    /// A copy of the hasher.
    pub fn duplicate(&self) -> (z: Zobrist)
        ensures
            z@ == self@,
    {
        Zobrist {
            positions: self.positions,
            board: copy_board(&self.board),
            hash: self.hash,
            prev_hashes: copy_hashes(&self.prev_hashes),
        }
    }

    /// The hash of the position that the hasher remembers.
    pub fn current_hash(&self) -> (h: u64)
        ensures
            h == self@.hash,
    {
        self.hash
    }

    /// Asks the hasher to take in a board. The hash of the new board is
    /// computed from the remembered one by exchanging, for every
    /// intersection whose state differs, the key of the old state for that
    /// of the new. Where the game has already passed through that position,
    /// the hasher stays as it is and `false` comes back. Otherwise it
    /// remembers the new board and its hash, adds the hash to the history
    /// and returns `true`.
    pub fn update(&mut self, new_board: &Vec<Vec<Intersection>>) -> (fresh: bool)
        requires
            old(self)@.wf(),
            is_grid(grid(new_board)),
            new_board.len() == old(self)@.board.len(),
        ensures
            fresh == !old(self)@.repeats(grid(new_board)),
            final(self)@ == old(self)@.updated(grid(new_board)),
            final(self)@.wf(),
    {
        let ghost keys = self.positions;
        let ghost was = grid(&self.board);
        let ghost now = grid(new_board);
        let mut new_hash: u64 = self.hash;
        proof {
            lemma_xor_swap(self.hash, 0, 0, 0, 0);
        }
        let mut i: usize = 0;
        while i < ROWS
            invariant
                i <= ROWS,
                is_grid(was),
                is_grid(now),
                was.len() == now.len(),
                was == grid(&self.board),
                now == grid(new_board),
                keys == self.positions,
                new_hash == (self.hash ^ hash_upto(keys, was, (i * 19) as nat)) ^ hash_upto(
                    keys,
                    now,
                    (i * 19) as nat,
                ),
            decreases ROWS - i,
        {
            let mut j: usize = 0;
            while j < COLS
                invariant
                    i < ROWS,
                    j <= COLS,
                    is_grid(was),
                    is_grid(now),
                    was.len() == now.len(),
                    was == grid(&self.board),
                    now == grid(new_board),
                    keys == self.positions,
                    new_hash == (self.hash ^ hash_upto(keys, was, (i * 19 + j) as nat)) ^ hash_upto(
                        keys,
                        now,
                        (i * 19 + j) as nat,
                    ),
                decreases COLS - j,
            {
                assert(cell_at(i * 19 + j) == (i, j));
                if i < new_board.len() && j < new_board.len() {
                    let old_color = state_at(&self.board, i, j);
                    let new_color = state_at(new_board, i, j);
                    let old_key = self.positions[i][j][old_color];
                    let new_key = self.positions[i][j][new_color];
                    proof {
                        lemma_xor_swap(
                            self.hash,
                            hash_upto(keys, was, (i * 19 + j) as nat),
                            hash_upto(keys, now, (i * 19 + j) as nat),
                            old_key,
                            new_key,
                        );
                    }
                    if old_color != new_color {
                        new_hash ^= old_key ^ new_key;
                    }
                } else {
                    proof {
                        lemma_xor_swap(
                            self.hash,
                            hash_upto(keys, was, (i * 19 + j) as nat),
                            hash_upto(keys, now, (i * 19 + j) as nat),
                            0,
                            0,
                        );
                    }
                }
                j += 1;
            }
            i += 1;
        }
        proof {
            lemma_xor_swap(0, self.hash, new_hash, 0, 0);
            lemma_xor_swap(0, self.hash, position_hash(keys, now), 0, 0);
        }
        assert(new_hash == position_hash(keys, now));
        if self.prev_hashes.contains(&new_hash) {
            false
        } else {
            self.hash = new_hash;
            self.board = copy_board(new_board);
            self.prev_hashes.insert(new_hash);
            true
        }
    }
}

/// Plays the move on a copy of the board and asks the hasher to take in the
/// outcome. Returns whether the outcome is a position that the game has not
/// passed through; the hasher then remembers it.
pub fn simulate_ko(
    x: usize,
    y: usize,
    color: usize,
    board: &Vec<Vec<Intersection>>,
    hash: &mut Zobrist,
) -> (fresh: bool)
    requires
        well_formed(grid(board)),
        x < board.len(),
        y < board.len(),
        old(hash)@.wf(),
        old(hash)@.board.len() == board.len(),
    ensures
        fresh == !old(hash)@.repeats(moved(grid(board), x, y, color)),
        final(hash)@ == old(hash)@.updated(moved(grid(board), x, y, color)),
        final(hash)@.wf(),
{
    let mut sim_board = copy_board(board);
    let _ = simulate_move(x, y, color, &mut sim_board);
    hash.update(&sim_board)
}

/// The number of liberties that the intersection at `(x, y)` records.
fn liberties_len_at(board: &Vec<Vec<Intersection>>, x: usize, y: usize) -> (n: usize)
    requires
        is_grid(grid(board)),
        x < board.len(),
        y < board.len(),
    ensures
        n == at(grid(board), (x, y)).liberties().len(),
{
    assert(grid(board)[x as int].len() == grid(board).len());
    match &board[x][y] {
        Intersection::Black(g) => g.liberties.len(),
        Intersection::White(g) => g.liberties.len(),
        Intersection::Empty => 0,
    }
}

/// Whether the neighbour at `(row, col)` lets a stone of the given colour
/// breathe. Where it holds a stone of that colour, the liberties of its
/// group are recomputed on the board.
fn check_liberty(row: usize, col: usize, color: usize, board: &mut Vec<Vec<Intersection>>) -> (ok: bool)
    requires
        sound(grid(old(board))),
        row < old(board).len(),
        col < old(board).len(),
    ensures
        ok == gives_breath(grid(old(board)), (row, col), color),
        akin(grid(old(board)), grid(final(board))),
        sound(grid(final(board))),
{
    proof {
        lemma_akin_self(grid(board));
    }
    if is_empty_at(board, row, col) {
        true
    } else if has_color_at(board, row, col, color) {
        proof {
            lemma_akin_with_liberties(grid(board), row, col, color);
            lemma_with_liberties_keeps(grid(board), row, col, color);
            lemma_recount(grid(board), (row, col), color);
        }
        get_liberties(row, col, color, board);
        liberties_len_at(board, row, col) > 1
    } else {
        false
    }
}

/// Whether a stone of the given colour next to `(row, col)` captures the
/// group there. The liberties of the group recorded at `(row, col)` are
/// recomputed on the board.
fn check_capture(row: usize, col: usize, color: usize, board: &mut Vec<Vec<Intersection>>) -> (ok: bool)
    requires
        sound(grid(old(board))),
        row < old(board).len(),
        col < old(board).len(),
    ensures
        ok == takes(grid(old(board)), (row, col), color),
        akin(grid(old(board)), grid(final(board))),
        sound(grid(final(board))),
{
    let opp = other_color(color);
    proof {
        lemma_akin_with_liberties(grid(board), row, col, opp);
        lemma_with_liberties_keeps(grid(board), row, col, opp);
        if has_color(at(grid(board), (row, col)), opp) {
            lemma_recount(grid(board), (row, col), opp);
        }
        assert(within(grid(board).len(), (row, col)));
    }
    get_liberties(row, col, opp, board);
    has_color_at(board, row, col, opp) && liberties_len_at(board, row, col) == 1
}

/// Whether some neighbour of `(x, y)` lets a stone of the given colour
/// breathe or is captured by it: first every neighbour is asked whether it
/// lets the stone breathe, then every neighbour whether it is captured. The
/// liberties of the neighbouring groups are recomputed on the board.
fn check_alive(x: usize, y: usize, color: usize, board: &mut Vec<Vec<Intersection>>) -> (ok: bool)
    requires
        sound(grid(old(board))),
        x < old(board).len(),
        y < old(board).len(),
    ensures
        ok == alive(grid(old(board)), x, y, color),
        akin(grid(old(board)), grid(final(board))),
        sound(grid(final(board))),
{
    let ghost g0 = grid(board);
    let ns = neighbours_of(x, y, board.len());
    let mut breathes = false;
    proof {
        lemma_akin_self(g0);
        lemma_neighbours_on_board(g0.len(), x, y);
    }
    let mut k: usize = 0;
    while k < ns.len()
        invariant
            k <= ns.len(),
            forall|w: int| 0 <= w < ns.len() ==> within(g0.len(), #[trigger] ns@[w]),
            akin(g0, grid(board)),
            sound(grid(board)),
            breathes == any_breath(g0, ns@, k as int, color),
        decreases ns.len() - k,
    {
        let n = ns[k];
        let ghost g = grid(board);
        proof {
            lemma_akin_checks(g0, g, n, color);
        }
        let here = check_liberty(n.0, n.1, color, board);
        proof {
            lemma_akin_chain(g0, g, grid(board));
            if any_breath(g0, ns@, k + 1, color) && !here {
                let w = choose|w: int| 0 <= w < k + 1 && gives_breath(g0, #[trigger] ns@[w], color);
                assert(w < k);
            }
            if here {
                assert(gives_breath(g0, ns@[k as int], color));
            }
            if breathes {
                let w = choose|w: int| 0 <= w < k && gives_breath(g0, #[trigger] ns@[w], color);
                assert(gives_breath(g0, ns@[w], color));
            }
        }
        if here {
            breathes = true;
        }
        k += 1;
    }
    let mut captures = false;
    let mut k: usize = 0;
    while k < ns.len()
        invariant
            k <= ns.len(),
            forall|w: int| 0 <= w < ns.len() ==> within(g0.len(), #[trigger] ns@[w]),
            akin(g0, grid(board)),
            sound(grid(board)),
            captures == any_take(g0, ns@, k as int, color),
        decreases ns.len() - k,
    {
        let n = ns[k];
        let ghost g = grid(board);
        proof {
            lemma_akin_checks(g0, g, n, color);
        }
        let here = check_capture(n.0, n.1, color, board);
        proof {
            lemma_akin_chain(g0, g, grid(board));
            if any_take(g0, ns@, k + 1, color) && !here {
                let w = choose|w: int| 0 <= w < k + 1 && takes(g0, #[trigger] ns@[w], color);
                assert(w < k);
            }
            if here {
                assert(takes(g0, ns@[k as int], color));
            }
            if captures {
                let w = choose|w: int| 0 <= w < k && takes(g0, #[trigger] ns@[w], color);
                assert(takes(g0, ns@[w], color));
            }
        }
        if here {
            captures = true;
        }
        k += 1;
    }
    breathes || captures
}

/// Judges a move of a real colour, on a board and a hasher that the caller
/// gives away for the purpose, and says what speaks against it: the
/// coordinate lies off the board; the point is taken; no neighbour is
/// empty, holds a stone of the mover's colour whose group has more than one
/// liberty, or holds an opposing stone whose group has exactly one; or the
/// position after the move is one that the game has passed through.
pub fn judge(x: usize, y: usize, color: usize, board: Vec<Vec<Intersection>>, hash: Zobrist) -> (r: Result<
    (),
    GoError,
>)
    requires
        sound(grid(&board)),
        hash@.wf(),
        hash@.board.len() == board.len(),
        color == BLACK || color == WHITE,
    ensures
        r == verdict(grid(&board), hash@, x, y, color),
{
    let mut board = board;
    let mut hash = hash;
    let ghost g0 = grid(&board);
    if x >= board.len() || y >= board.len() {
        return Err(GoError::OutOfBounds);
    }
    if !is_empty_at(&board, x, y) {
        return Err(GoError::OccupiedCell);
    }
    if !check_alive(x, y, color, &mut board) {
        return Err(GoError::SuicideMove);
    }
    proof {
        lemma_akin_legal(g0, grid(&board), hash@, x, y, color);
        lemma_akin_alive(g0, grid(&board), x, y, color);
        assert(within(g0.len(), (x, y)));
    }
    if simulate_ko(x, y, color, &board, &mut hash) {
        Ok(())
    } else {
        Err(GoError::KoViolation)
    }
}

/// Decides whether a move is legal, on a board and a hasher that the caller
/// gives away for the purpose: the coordinate must lie on the board, the
/// colour be black or white and the point empty; some neighbour must be
/// empty, hold a stone of the mover's colour whose group has more than one
/// liberty, or hold an opposing stone whose group has exactly one; and the
/// position after the move must be none that the game has passed through.
pub fn simulate_val(x: usize, y: usize, color: usize, board: Vec<Vec<Intersection>>, hash: Zobrist) -> (ok:
    bool)
    requires
        sound(grid(&board)),
        hash@.wf(),
        hash@.board.len() == board.len(),
    ensures
        ok == legal(grid(&board), hash@, x, y, color),
{
    if !(color == BLACK || color == WHITE) {
        return false;
    }
    match judge(x, y, color, board, hash) {
        Ok(_) => true,
        Err(_) => false,
    }
}

/// The live board of a game.
#[derive(Debug)]
pub struct Board {
    pub pieces: Vec<Vec<Intersection>>,
}

/// The hasher of a game.
#[derive(Debug)]
pub struct Hash {
    pub zobrist: Zobrist,
}

/// The move tree of a game.
#[derive(Debug)]
pub struct Tree {
    pub game: Game,
}

} // verus!
