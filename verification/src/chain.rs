//! Connected groups of stones: what it means for two stones to belong to one
//! group, and the facts about it that the flood fill rests on.

use vstd::prelude::*;
use crate::cells::{
    adjacent, cell_at, in_frame, index_of, lemma_cell_index, lemma_index_cell, listed, within, CELLS,
};
use crate::go::{at, Grid, GroupView, Point, BLACK, WHITE};

verus! {

/// Whether a point holds a stone of the given colour. No point has a colour
/// other than black or white.
pub open spec fn has_color(p: Point, color: usize) -> bool {
    (color == BLACK && p is Black) || (color == WHITE && p is White)
}

/// A non-empty walk over stones of one colour, each next to the one before.
pub open spec fn is_chain(g: Grid, color: usize, path: Seq<(usize, usize)>) -> bool {
    &&& path.len() > 0
    &&& forall|k: int|
        0 <= k < path.len() ==> within(g.len(), #[trigger] path[k]) && has_color(at(g, path[k]), color)
    &&& forall|k: int| 0 <= k < path.len() - 1 ==> adjacent(#[trigger] path[k], path[k + 1])
}

/// Whether `a` and `b` are joined by a walk over stones of the given colour.
pub open spec fn connected(g: Grid, color: usize, a: (usize, usize), b: (usize, usize)) -> bool {
    exists|path: Seq<(usize, usize)>|
        #[trigger] is_chain(g, color, path) && path[0] == a && path.last() == b
}

/// The group of the given colour that holds `(x, y)`: empty where `(x, y)`
/// holds no stone of that colour.
pub open spec fn group_set(g: Grid, x: usize, y: usize, color: usize) -> Set<(usize, usize)> {
    Set::new(|c: (usize, usize)| connected(g, color, (x, y), c))
}

/// A point with its recorded group replaced, where its stone passes the
/// colour filter: black stones for colour 1, white stones for any other.
pub open spec fn regroup(p: Point, color: usize, stones: Seq<(usize, usize)>) -> Point {
    match p {
        Point::Black(g) => if color == BLACK {
            Point::Black(GroupView { intersections: stones, ..g })
        } else {
            p
        },
        Point::White(g) => if color != BLACK {
            Point::White(GroupView { intersections: stones, ..g })
        } else {
            p
        },
        Point::Empty => p,
    }
}

/// A stone of the given colour is connected to itself.
pub proof fn lemma_connected_self(g: Grid, color: usize, a: (usize, usize))
    requires
        within(g.len(), a),
        has_color(at(g, a), color),
    ensures
        connected(g, color, a, a),
{
    let path = seq![a];
    assert(is_chain(g, color, path));
    assert(path[0] == a && path.last() == a);
}

/// A walk can be extended by a neighbouring stone of the same colour.
pub proof fn lemma_connected_step(
    g: Grid,
    color: usize,
    a: (usize, usize),
    b: (usize, usize),
    c: (usize, usize),
)
    requires
        connected(g, color, a, b),
        adjacent(b, c),
        within(g.len(), c),
        has_color(at(g, c), color),
    ensures
        connected(g, color, a, c),
{
    let path = choose|path: Seq<(usize, usize)>|
        #[trigger] is_chain(g, color, path) && path[0] == a && path.last() == b;
    let longer = path.push(c);
    assert forall|k: int| 0 <= k < longer.len() implies within(g.len(), #[trigger] longer[k]) && has_color(
        at(g, longer[k]),
        color,
    ) by {
        if k < path.len() {
            assert(longer[k] == path[k]);
        }
    }
    assert forall|k: int| 0 <= k < longer.len() - 1 implies adjacent(
        #[trigger] longer[k],
        longer[k + 1],
    ) by {
        assert(longer[k] == path[k]);
        if k < path.len() - 1 {
            assert(longer[k + 1] == path[k + 1]);
        }
    }
    assert(is_chain(g, color, longer));
    assert(longer[0] == path[0]);
    assert(longer.last() == c);
}

/// Whatever is connected to a stone lies on the board and has its colour.
pub proof fn lemma_connected_color(g: Grid, color: usize, a: (usize, usize), b: (usize, usize))
    requires
        connected(g, color, a, b),
    ensures
        within(g.len(), a),
        within(g.len(), b),
        has_color(at(g, a), color),
        has_color(at(g, b), color),
{
    let path = choose|path: Seq<(usize, usize)>|
        #[trigger] is_chain(g, color, path) && path[0] == a && path.last() == b;
    assert(within(g.len(), path[0]));
    assert(within(g.len(), path[path.len() - 1]));
}

/// Every stone of a walk that starts inside a closed set lies in that set.
pub proof fn lemma_walk_stays(
    g: Grid,
    color: usize,
    s: Set<(usize, usize)>,
    path: Seq<(usize, usize)>,
    k: int,
)
    requires
        is_chain(g, color, path),
        s.contains(path[0]),
        forall|f: (usize, usize), n: (usize, usize)|
            s.contains(f) && #[trigger] adjacent(f, n) && within(g.len(), n) && has_color(at(g, n), color)
                ==> s.contains(n),
        0 <= k < path.len(),
    ensures
        s.contains(path[k]),
    decreases k,
{
    if k > 0 {
        lemma_walk_stays(g, color, s, path, k - 1);
        assert(adjacent(path[k - 1], path[k - 1 + 1]));
        assert(within(g.len(), path[k]));
    }
}

/// A set of stones of one colour that holds the start, is closed under
/// neighbouring stones of that colour and holds only stones connected to the
/// start is the start's group.
pub proof fn lemma_group_is_closure(
    g: Grid,
    x: usize,
    y: usize,
    color: usize,
    s: Set<(usize, usize)>,
)
    requires
        within(g.len(), (x, y)) && has_color(at(g, (x, y)), color) ==> s.contains((x, y)),
        forall|c: (usize, usize)| s.contains(c) ==> connected(g, color, (x, y), c),
        forall|f: (usize, usize), n: (usize, usize)|
            s.contains(f) && #[trigger] adjacent(f, n) && within(g.len(), n) && has_color(at(g, n), color)
                ==> s.contains(n),
    ensures
        s == group_set(g, x, y, color),
{
    assert forall|c: (usize, usize)| group_set(g, x, y, color).contains(c) implies s.contains(c) by {
        let path = choose|path: Seq<(usize, usize)>|
            #[trigger] is_chain(g, color, path) && path[0] == (x, y) && path.last() == c;
        assert(within(g.len(), path[0]));
        lemma_walk_stays(g, color, s, path, path.len() - 1);
    }
    assert(s =~= group_set(g, x, y, color));
}

/// Adding a coordinate that a listing has passed makes the listing one longer.
pub proof fn lemma_listed_grows(s: Set<(usize, usize)>, c: (usize, usize), n: nat)
    requires
        n <= CELLS,
        in_frame(c),
        !s.contains(c),
    ensures
        listed(s.insert(c), n).len() == listed(s, n).len() + (if index_of(c) < n {
            1int
        } else {
            0int
        }),
    decreases n,
{
    if n > 0 {
        lemma_listed_grows(s, c, (n - 1) as nat);
        lemma_index_cell(n - 1);
        lemma_cell_index(c);
        if cell_at(n - 1) == c {
            assert(index_of(c) == n - 1);
        } else {
            assert(s.insert(c).contains(cell_at(n - 1)) == s.contains(cell_at(n - 1)));
        }
    }
}

} // verus!
