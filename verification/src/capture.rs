//! What a move does to the board: the stone placed, the neighbouring groups
//! left without liberties, and the board once those are taken off.

use vstd::prelude::*;
use crate::cells::{lemma_ordered, ordered, within};
use crate::chain::{group_set, has_color, lemma_connected_color, lemma_connected_self};
use crate::go::{
    among, at, sound, well_formed, with_group, with_liberties, Grid, GroupView, Point, BLACK,
    EMPTY, WHITE,
};

verus! {

/// The colour that a colour plays against; 0 for what is no colour.
pub open spec fn opponent(color: usize) -> usize {
    if color == BLACK {
        WHITE
    } else if color == WHITE {
        BLACK
    } else {
        EMPTY
    }
}

/// A stone as it is set down, before its group is recorded: black for colour
/// 1, white for any other.
pub open spec fn new_stone(color: usize) -> Point {
    let blank = GroupView { intersections: Seq::empty(), liberties: Seq::empty() };
    if color == BLACK {
        Point::Black(blank)
    } else {
        Point::White(blank)
    }
}

/// The grid with one point replaced.
pub open spec fn put(g: Grid, c: (usize, usize), p: Point) -> Grid {
    g.update(c.0 as int, g[c.0 as int].update(c.1 as int, p))
}

/// The grid with a new stone at `(x, y)`, its group found and the liberties
/// of that group recorded.
pub open spec fn settled(g: Grid, x: usize, y: usize, color: usize) -> Grid {
    with_liberties(with_group(put(g, (x, y), new_stone(color)), x, y, color), x, y, color)
}

/// The orthogonal neighbours of `(x, y)` on a board of `n` rows and `n`
/// columns: above, below, left, right.
pub open spec fn neighbours(n: nat, x: usize, y: usize) -> Seq<(usize, usize)> {
    let up = if x > 0 {
        seq![((x - 1) as usize, y)]
    } else {
        Seq::empty()
    };
    let down = if x < n - 1 {
        seq![((x + 1) as usize, y)]
    } else {
        Seq::empty()
    };
    let left = if y > 0 {
        seq![(x, (y - 1) as usize)]
    } else {
        Seq::empty()
    };
    let right = if y < n - 1 {
        seq![(x, (y + 1) as usize)]
    } else {
        Seq::empty()
    };
    up + down + left + right
}

/// The stones recorded at `n`, where `n` holds a stone of colour `opp` whose
/// record shows no liberty; else nothing.
pub open spec fn doomed(g: Grid, n: (usize, usize), opp: usize) -> Seq<(usize, usize)> {
    if has_color(at(g, n), opp) && at(g, n).liberties().len() == 0 {
        at(g, n).stones()
    } else {
        Seq::empty()
    }
}

/// The grid after the liberties of the groups recorded at `ns` have been
/// recomputed, one after the other.
pub open spec fn sweep_grid(g: Grid, ns: Seq<(usize, usize)>, opp: usize) -> Grid
    decreases ns.len(),
{
    if ns.len() == 0 {
        g
    } else {
        with_liberties(sweep_grid(g, ns.drop_last(), opp), ns.last().0, ns.last().1, opp)
    }
}

/// The stones found without liberties while the groups recorded at `ns` were
/// recomputed, in the order in which they were found. A group that is found
/// from two of the neighbours stands in the list twice.
pub open spec fn sweep_dead(g: Grid, ns: Seq<(usize, usize)>, opp: usize) -> Seq<(usize, usize)>
    decreases ns.len(),
{
    if ns.len() == 0 {
        Seq::empty()
    } else {
        sweep_dead(g, ns.drop_last(), opp) + doomed(sweep_grid(g, ns, opp), ns.last(), opp)
    }
}

/// The grid with the first `n` entries of `dead` made empty.
pub open spec fn cleared(g: Grid, dead: Seq<(usize, usize)>, n: int) -> Grid {
    Seq::new(
        g.len(),
        |i: int|
            Seq::new(
                g.len(),
                |j: int|
                    if among(dead, n, (i as usize, j as usize)) {
                        Point::Empty
                    } else {
                        g[i][j]
                    },
            ),
    )
}

/// What the sweep after a move at `(x, y)` finds: for each neighbour in
/// turn that holds an opposing stone whose group is left without liberties,
/// the stones of that group.
pub open spec fn found_dead(g: Grid, x: usize, y: usize, color: usize) -> Seq<(usize, usize)> {
    sweep_dead(settled(g, x, y, color), neighbours(g.len(), x, y), opponent(color))
}

/// The stones that a move at `(x, y)` takes off the board: the stones of
/// the opposing groups next to the new stone that are left without
/// liberties, each stone once, in row-major order.
pub open spec fn captured(g: Grid, x: usize, y: usize, color: usize) -> Seq<(usize, usize)> {
    ordered(found_dead(g, x, y, color).to_set())
}

/// The grid after a move at `(x, y)`: the stone placed, its group and
/// liberties recorded, the liberties of the neighbouring groups recomputed
/// and the captured stones taken off.
pub open spec fn moved(g: Grid, x: usize, y: usize, color: usize) -> Grid {
    let dead = found_dead(g, x, y, color);
    cleared(
        sweep_grid(settled(g, x, y, color), neighbours(g.len(), x, y), opponent(color)),
        dead,
        dead.len() as int,
    )
}

/// Recomputing liberties keeps a grid well-formed, and sound where it was.
pub proof fn lemma_with_liberties_keeps(g: Grid, x: usize, y: usize, color: usize)
    requires
        well_formed(g),
    ensures
        with_liberties(g, x, y, color).len() == g.len(),
        well_formed(with_liberties(g, x, y, color)),
        sound(g) ==> sound(with_liberties(g, x, y, color)),
        forall|c: (usize, usize)|
            within(g.len(), c) ==> (#[trigger] at(with_liberties(g, x, y, color), c)).stones() == at(
                g,
                c,
            ).stones() && at(with_liberties(g, x, y, color), c).state() == at(g, c).state(),
{
    let h = with_liberties(g, x, y, color);
    assert forall|c: (usize, usize)| within(g.len(), c) implies (#[trigger] at(h, c)).stones() == at(
        g,
        c,
    ).stones() && at(h, c).state() == at(g, c).state() by {}
    assert forall|c: (usize, usize), k: int|
        within(g.len(), c) && 0 <= k < at(h, c).stones().len() implies within(
        g.len(),
        #[trigger] at(h, c).stones()[k],
    ) by {
        assert(at(h, c).stones() == at(g, c).stones());
        assert(within(g.len(), at(g, c).stones()[k]));
    }
    if sound(g) {
        assert forall|c: (usize, usize)| within(g.len(), c) && !(#[trigger] at(h, c) is Empty) implies at(
            h,
            c,
        ).stones().contains(c) by {
            assert(at(h, c).stones() == at(g, c).stones());
            assert(!(at(g, c) is Empty));
        }
    }
}

/// Recording a group keeps a grid well-formed.
pub proof fn lemma_with_group_keeps(g: Grid, x: usize, y: usize, color: usize)
    requires
        well_formed(g),
    ensures
        with_group(g, x, y, color).len() == g.len(),
        well_formed(with_group(g, x, y, color)),
        forall|c: (usize, usize)|
            within(g.len(), c) ==> (#[trigger] at(with_group(g, x, y, color), c)).state() == at(g, c).state(),
{
    let h = with_group(g, x, y, color);
    let s = group_set(g, x, y, color);
    lemma_ordered(s);
    assert forall|c: (usize, usize), k: int|
        within(g.len(), c) && 0 <= k < at(h, c).stones().len() implies within(
        g.len(),
        #[trigger] at(h, c).stones()[k],
    ) by {
        if s.contains(c) && at(h, c).stones() != at(g, c).stones() {
            assert(at(h, c).stones() == ordered(s));
            assert(ordered(s).contains(ordered(s)[k]));
        } else {
            assert(at(h, c).stones() == at(g, c).stones());
            assert(within(g.len(), at(g, c).stones()[k]));
        }
    }
}

/// Replacing a point by one whose recorded stones lie on the board keeps a
/// grid well-formed.
pub proof fn lemma_put_keeps(g: Grid, c: (usize, usize), p: Point)
    requires
        well_formed(g),
        within(g.len(), c),
        forall|k: int| 0 <= k < p.stones().len() ==> within(g.len(), #[trigger] p.stones()[k]),
    ensures
        put(g, c, p).len() == g.len(),
        well_formed(put(g, c, p)),
{
    let h = put(g, c, p);
    assert forall|d: (usize, usize), k: int|
        within(g.len(), d) && 0 <= k < at(h, d).stones().len() implies within(
        g.len(),
        #[trigger] at(h, d).stones()[k],
    ) by {
        if d == c {
            assert(at(h, d) == p);
        } else {
            assert(at(h, d) == at(g, d));
            assert(within(g.len(), at(g, d).stones()[k]));
        }
    }
}

/// Setting down a stone of a real colour and recording its group and
/// liberties leaves a sound grid sound.
pub proof fn lemma_settled_sound(g: Grid, x: usize, y: usize, color: usize)
    requires
        well_formed(g),
        x < g.len(),
        y < g.len(),
    ensures
        settled(g, x, y, color).len() == g.len(),
        well_formed(put(g, (x, y), new_stone(color))),
        well_formed(with_group(put(g, (x, y), new_stone(color)), x, y, color)),
        well_formed(settled(g, x, y, color)),
        sound(g) && (color == BLACK || color == WHITE) ==> sound(settled(g, x, y, color)),
{
    let p = put(g, (x, y), new_stone(color));
    lemma_put_keeps(g, (x, y), new_stone(color));
    let h = with_group(p, x, y, color);
    lemma_with_group_keeps(p, x, y, color);
    lemma_with_liberties_keeps(h, x, y, color);
    if sound(g) && (color == BLACK || color == WHITE) {
        let s = group_set(p, x, y, color);
        lemma_ordered(s);
        assert(sound(h)) by {
            assert forall|c: (usize, usize)| within(g.len(), c) && !(#[trigger] at(h, c) is Empty) implies at(
                h,
                c,
            ).stones().contains(c) by {
                if c == (x, y) {
                    lemma_connected_self(p, color, c);
                    assert(s.contains(c));
                }
                if s.contains(c) {
                    lemma_connected_color(p, color, (x, y), c);
                    assert(at(h, c).stones() == ordered(s));
                } else {
                    assert(at(h, c) == at(g, c));
                    assert(!(at(g, c) is Empty));
                }
            }
        }
    }
}

/// Recomputing the liberties of some groups in turn keeps a grid
/// well-formed, and sound where it was; no stone and no recorded group changes.
pub proof fn lemma_sweep_keeps(g: Grid, ns: Seq<(usize, usize)>, opp: usize)
    requires
        well_formed(g),
    ensures
        sweep_grid(g, ns, opp).len() == g.len(),
        well_formed(sweep_grid(g, ns, opp)),
        sound(g) ==> sound(sweep_grid(g, ns, opp)),
        forall|c: (usize, usize)|
            within(g.len(), c) ==> (#[trigger] at(sweep_grid(g, ns, opp), c)).stones() == at(g, c).stones()
                && at(sweep_grid(g, ns, opp), c).state() == at(g, c).state(),
    decreases ns.len(),
{
    if ns.len() > 0 {
        lemma_sweep_keeps(g, ns.drop_last(), opp);
        lemma_with_liberties_keeps(sweep_grid(g, ns.drop_last(), opp), ns.last().0, ns.last().1, opp);
    }
}

/// Every stone found without liberties lies on the board.
pub proof fn lemma_sweep_dead_on_board(g: Grid, ns: Seq<(usize, usize)>, opp: usize)
    requires
        well_formed(g),
        forall|k: int| 0 <= k < ns.len() ==> within(g.len(), #[trigger] ns[k]),
    ensures
        forall|k: int|
            0 <= k < sweep_dead(g, ns, opp).len() ==> within(g.len(), #[trigger] sweep_dead(g, ns, opp)[k]),
    decreases ns.len(),
{
    if ns.len() > 0 {
        lemma_sweep_dead_on_board(g, ns.drop_last(), opp);
        lemma_sweep_keeps(g, ns, opp);
        let before = sweep_dead(g, ns.drop_last(), opp);
        let here = doomed(sweep_grid(g, ns, opp), ns.last(), opp);
        assert(within(g.len(), ns[ns.len() - 1]));
        assert forall|k: int| 0 <= k < sweep_dead(g, ns, opp).len() implies within(
            g.len(),
            #[trigger] sweep_dead(g, ns, opp)[k],
        ) by {
            if k < before.len() {
                assert(sweep_dead(g, ns, opp)[k] == before[k]);
            } else {
                assert(sweep_dead(g, ns, opp)[k] == here[k - before.len()]);
                assert(within(g.len(), at(sweep_grid(g, ns, opp), ns.last()).stones()[k - before.len()]));
            }
        }
    }
}

/// Taking stones off keeps a grid well-formed, and sound where it was.
pub proof fn lemma_cleared_keeps(g: Grid, dead: Seq<(usize, usize)>, n: int)
    requires
        well_formed(g),
    ensures
        cleared(g, dead, n).len() == g.len(),
        well_formed(cleared(g, dead, n)),
        sound(g) ==> sound(cleared(g, dead, n)),
{
    let h = cleared(g, dead, n);
    assert forall|c: (usize, usize), k: int|
        within(g.len(), c) && 0 <= k < at(h, c).stones().len() implies within(
        g.len(),
        #[trigger] at(h, c).stones()[k],
    ) by {
        assert(at(h, c) == at(g, c));
        assert(within(g.len(), at(g, c).stones()[k]));
    }
    if sound(g) {
        assert forall|c: (usize, usize)| within(g.len(), c) && !(#[trigger] at(h, c) is Empty) implies at(
            h,
            c,
        ).stones().contains(c) by {
            assert(at(h, c) == at(g, c));
        }
    }
}

/// The neighbours of a point on the board lie on the board.
pub proof fn lemma_neighbours_on_board(n: nat, x: usize, y: usize)
    requires
        x < n,
        y < n,
    ensures
        forall|k: int| 0 <= k < neighbours(n, x, y).len() ==> within(n, #[trigger] neighbours(n, x, y)[k]),
{
}

/// A move leaves a well-formed grid well-formed, and a move of a real colour
/// leaves a sound grid sound.
pub proof fn lemma_moved_sound(g: Grid, x: usize, y: usize, color: usize)
    requires
        well_formed(g),
        x < g.len(),
        y < g.len(),
    ensures
        moved(g, x, y, color).len() == g.len(),
        well_formed(moved(g, x, y, color)),
        sound(g) && (color == BLACK || color == WHITE) ==> sound(moved(g, x, y, color)),
        forall|k: int|
            0 <= k < found_dead(g, x, y, color).len() ==> within(
                g.len(),
                #[trigger] found_dead(g, x, y, color)[k],
            ),
        captured(g, x, y, color).no_duplicates(),
        forall|c: (usize, usize)| #[trigger]
            captured(g, x, y, color).contains(c) <==> found_dead(g, x, y, color).contains(c),
{
    lemma_settled_sound(g, x, y, color);
    lemma_neighbours_on_board(g.len(), x, y);
    let s = settled(g, x, y, color);
    lemma_sweep_keeps(s, neighbours(g.len(), x, y), opponent(color));
    lemma_sweep_dead_on_board(s, neighbours(g.len(), x, y), opponent(color));
    let dead = found_dead(g, x, y, color);
    lemma_cleared_keeps(sweep_grid(s, neighbours(g.len(), x, y), opponent(color)), dead, dead.len() as int);
    lemma_ordered(dead.to_set());
    assert forall|c: (usize, usize)| #[trigger]
        captured(g, x, y, color).contains(c) <==> dead.contains(c) by {
        if dead.contains(c) {
            let k = choose|k: int| 0 <= k < dead.len() && dead[k] == c;
            assert(within(g.len(), dead[k]));
        }
    }
}

} // verus!
