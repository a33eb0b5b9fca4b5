//! What a change of the board is reported as: the points that became empty,
//! the points that came to hold a stone of another colour than before, and
//! the stones of a whole board. What the stones record of their groups
//! plays no part in it.

use vstd::prelude::*;
use crate::cells::{cell_at, lemma_ordered, listed, ordered, within, COLS, ROWS};
use crate::go::{at, grid, is_grid, Grid, Group, Intersection, BLACK, EMPTY, WHITE};

verus! {

/// Each coordinate of a list with the state that the grid gives it.
pub open spec fn colored(g: Grid, cells: Seq<(usize, usize)>) -> Seq<(usize, usize, usize)> {
    Seq::new(cells.len(), |k: int| (cells[k].0, cells[k].1, at(g, cells[k]).state()))
}

/// The points that became empty: they hold a stone in `live` and none in
/// `target`.
pub open spec fn vanished(target: Grid, live: Grid) -> Set<(usize, usize)> {
    Set::new(
        |c: (usize, usize)|
            within(target.len(), c) && at(target, c) is Empty && !(at(live, c) is Empty),
    )
}

/// The points that became occupied: they hold a stone in `target`, and in
/// `live` they are empty or hold a stone of the other colour.
pub open spec fn appeared(target: Grid, live: Grid) -> Set<(usize, usize)> {
    Set::new(
        |c: (usize, usize)|
            within(target.len(), c) && !(at(target, c) is Empty) && at(target, c).state() != at(
                live,
                c,
            ).state(),
    )
}

/// The points that hold a stone.
pub open spec fn occupied(g: Grid) -> Set<(usize, usize)> {
    Set::new(|c: (usize, usize)| within(g.len(), c) && !(at(g, c) is Empty))
}

/// What is reported as removed when the board goes from `live` to
/// `target`, a board of the same size: the points that became empty, in
/// row-major order.
pub open spec fn removed_list(target: Grid, live: Grid) -> Seq<(usize, usize)> {
    ordered(vanished(target, live))
}

/// What is reported as added when the board goes from `live` to `target`:
/// the points that became occupied, each with the colour of its stone, in
/// row-major order.
pub open spec fn added_list(target: Grid, live: Grid) -> Seq<(usize, usize, usize)> {
    colored(target, ordered(appeared(target, live)))
}

/// The stones of a board, each with its colour, in row-major order.
pub open spec fn stones_list(g: Grid) -> Seq<(usize, usize, usize)> {
    colored(g, ordered(occupied(g)))
}

/// Whether two lists of coordinates are equal.
pub fn same_cells(a: &Vec<(usize, usize)>, b: &Vec<(usize, usize)>) -> (r: bool)
    ensures
        r == (a@ == b@),
{
    if a.len() != b.len() {
        return false;
    }
    let mut k: usize = 0;
    while k < a.len()
        invariant
            k <= a.len(),
            a.len() == b.len(),
            forall|w: int| 0 <= w < k ==> a@[w] == b@[w],
        decreases a.len() - k,
    {
        if a[k].0 != b[k].0 || a[k].1 != b[k].1 {
            assert(a@[k as int] != b@[k as int]);
            return false;
        }
        k += 1;
    }
    assert(a@ =~= b@);
    true
}

/// Whether two groups record the same stones and liberties.
pub fn same_group(a: &Group, b: &Group) -> (r: bool)
    ensures
        r == (a@ == b@),
{
    same_cells(&a.intersections, &b.intersections) && same_cells(&a.liberties, &b.liberties)
}

/// Whether two intersections are equal: both empty, or stones of one colour
/// that record the same group.
pub fn same_point(a: &Intersection, b: &Intersection) -> (r: bool)
    ensures
        r == (a@ == b@),
{
    match a {
        Intersection::Empty => match b {
            Intersection::Empty => true,
            _ => false,
        },
        Intersection::Black(g) => match b {
            Intersection::Black(h) => same_group(g, h),
            _ => false,
        },
        Intersection::White(g) => match b {
            Intersection::White(h) => same_group(g, h),
            _ => false,
        },
    }
}

/// Whether two boards are equal: of one size and equal intersection by
/// intersection.
pub fn same_board(a: &Vec<Vec<Intersection>>, b: &Vec<Vec<Intersection>>) -> (r: bool)
    requires
        is_grid(grid(a)),
        is_grid(grid(b)),
    ensures
        r == (grid(a) == grid(b)),
{
    let size = a.len();
    if b.len() != size {
        assert(grid(a).len() != grid(b).len());
        return false;
    }
    let mut i: usize = 0;
    while i < size
        invariant
            i <= size,
            size == a.len(),
            size == b.len(),
            is_grid(grid(a)),
            is_grid(grid(b)),
            forall|r: int, c: int| 0 <= r < i && 0 <= c < size ==> grid(a)[r][c] == grid(b)[r][c],
        decreases size - i,
    {
        let mut j: usize = 0;
        assert(grid(a)[i as int].len() == size);
        assert(grid(b)[i as int].len() == size);
        while j < size
            invariant
                i < size,
                j <= size,
                size == a.len(),
                size == b.len(),
                is_grid(grid(a)),
                is_grid(grid(b)),
                a@[i as int]@.len() == size,
                b@[i as int]@.len() == size,
                forall|r: int, c: int| 0 <= r < i && 0 <= c < size ==> grid(a)[r][c] == grid(b)[r][c],
                forall|c: int| 0 <= c < j ==> grid(a)[i as int][c] == grid(b)[i as int][c],
            decreases size - j,
        {
            if !same_point(&a[i][j], &b[i][j]) {
                assert(grid(a)[i as int][j as int] != grid(b)[i as int][j as int]);
                return false;
            }
            j += 1;
        }
        i += 1;
    }
    assert(grid(a) =~~= grid(b));
    true
}

/// 0 for an empty intersection, else the colour number of its stone.
fn state_of(p: &Intersection) -> (s: usize)
    ensures
        s == p@.state(),
{
    match p {
        Intersection::Empty => EMPTY,
        Intersection::Black(_) => BLACK,
        Intersection::White(_) => WHITE,
    }
}

/// The difference between two boards as it is reported when the board
/// goes from `live` to `target`: first the points that became occupied,
/// each with the colour of its stone, then the points that became empty. A
/// stone that stays, whatever it records of its group, is in neither list.
pub fn diff_boards(target: &Vec<Vec<Intersection>>, live: &Vec<Vec<Intersection>>) -> (r: (
    Vec<(usize, usize, usize)>,
    Vec<(usize, usize)>,
))
    requires
        is_grid(grid(target)),
        is_grid(grid(live)),
        target.len() == live.len(),
    ensures
        r.0@ == added_list(grid(target), grid(live)),
        r.1@ == removed_list(grid(target), grid(live)),
{
    let ghost t = grid(target);
    let ghost l = grid(live);
    let mut added: Vec<(usize, usize, usize)> = Vec::new();
    let mut removed: Vec<(usize, usize)> = Vec::new();
    let mut i: usize = 0;
    assert(added@ =~= colored(t, listed(appeared(t, l), 0)));
    while i < ROWS
        invariant
            i <= ROWS,
            is_grid(t),
            is_grid(l),
            t.len() == l.len(),
            t == grid(target),
            l == grid(live),
            added@ == colored(t, listed(appeared(t, l), (i * 19) as nat)),
            removed@ == listed(vanished(t, l), (i * 19) as nat),
        decreases ROWS - i,
    {
        let mut j: usize = 0;
        while j < COLS
            invariant
                i < ROWS,
                j <= COLS,
                is_grid(t),
                is_grid(l),
                t.len() == l.len(),
                t == grid(target),
                l == grid(live),
                added@ == colored(t, listed(appeared(t, l), (i * 19 + j) as nat)),
                removed@ == listed(vanished(t, l), (i * 19 + j) as nat),
            decreases COLS - j,
        {
            assert(cell_at(i * 19 + j) == (i, j));
            let ghost before = listed(appeared(t, l), (i * 19 + j) as nat);
            if i < target.len() && j < target.len() {
                assert(t[i as int].len() == t.len());
                assert(l[i as int].len() == l.len());
                let s = state_of(&target[i][j]);
                if s != state_of(&live[i][j]) {
                    if s == EMPTY {
                        removed.push((i, j));
                    } else {
                        added.push((i, j, s));
                        assert(added@ =~= colored(t, before.push((i, j))));
                    }
                }
            }
            j += 1;
        }
        i += 1;
    }
    (added, removed)
}

/// The stones of a board, each with its colour, in row-major order.
pub fn list_stones(board: &Vec<Vec<Intersection>>) -> (out: Vec<(usize, usize, usize)>)
    requires
        is_grid(grid(board)),
    ensures
        out@ == stones_list(grid(board)),
{
    let ghost g = grid(board);
    let mut out: Vec<(usize, usize, usize)> = Vec::new();
    let mut i: usize = 0;
    assert(out@ =~= colored(g, listed(occupied(g), 0)));
    while i < ROWS
        invariant
            i <= ROWS,
            is_grid(g),
            g == grid(board),
            out@ == colored(g, listed(occupied(g), (i * 19) as nat)),
        decreases ROWS - i,
    {
        let mut j: usize = 0;
        while j < COLS
            invariant
                i < ROWS,
                j <= COLS,
                is_grid(g),
                g == grid(board),
                out@ == colored(g, listed(occupied(g), (i * 19 + j) as nat)),
            decreases COLS - j,
        {
            assert(cell_at(i * 19 + j) == (i, j));
            let ghost before = listed(occupied(g), (i * 19 + j) as nat);
            if i < board.len() && j < board.len() {
                assert(g[i as int].len() == g.len());
                let s = state_of(&board[i][j]);
                if s != EMPTY {
                    out.push((i, j, s));
                    assert(out@ =~= colored(g, before.push((i, j))));
                }
            }
            j += 1;
        }
        i += 1;
    }
    out
}

/// The list of the stones of a board names every stone once, with its
/// colour, and nothing else: an entry is in the list exactly if its point
/// lies on the board and holds a stone of the entry's colour.
pub proof fn law_stones_list(g: Grid, e: (usize, usize, usize))
    requires
        is_grid(g),
    ensures
        stones_list(g).no_duplicates(),
        stones_list(g).contains(e) <==> (within(g.len(), (e.0, e.1)) && e.2 != EMPTY && at(
            g,
            (e.0, e.1),
        ).state() == e.2),
{
    let cells = ordered(occupied(g));
    let list = stones_list(g);
    lemma_ordered(occupied(g));
    assert forall|i: int, j: int| 0 <= i < list.len() && 0 <= j < list.len() && i != j implies list[i]
        != list[j] by {
        assert(cells[i] != cells[j]);
    }
    if list.contains(e) {
        let k = choose|k: int| 0 <= k < list.len() && list[k] == e;
        assert(cells.contains(cells[k]));
    }
    if within(g.len(), (e.0, e.1)) && e.2 != EMPTY && at(g, (e.0, e.1)).state() == e.2 {
        assert(occupied(g).contains((e.0, e.1)));
        assert(cells.contains((e.0, e.1)));
        let k = choose|k: int| 0 <= k < cells.len() && cells[k] == (e.0, e.1);
        assert(list[k] == e);
    }
}

} // verus!
