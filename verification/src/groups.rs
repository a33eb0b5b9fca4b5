//! The record that every stone keeps of its group stays right: on a board
//! on which every stone records the group it belongs to, a move onto an
//! empty point leaves a board of that kind.

use vstd::prelude::*;
use crate::akin::{akin, legal, lemma_akin_groups, lemma_akin_with_liberties};
use crate::capture::{
    cleared, doomed, lemma_neighbours_on_board, lemma_settled_sound, lemma_sweep_keeps, moved,
    neighbours, new_stone, opponent, put, settled, sweep_dead, sweep_grid,
};
use crate::cells::{adjacent, lemma_ordered, ordered, valid_size, within};
use crate::chain::{
    connected, group_set, has_color, is_chain, lemma_connected_color, lemma_connected_self,
};
use crate::go::{
    among, at, empty_grid, is_grid, sound, with_group, Grid, ZobristView, BLACK, WHITE,
};
use crate::session::SessionView;

verus! {

/// Whether every stone records the group it belongs to: the stones joined
/// to it through neighbours of its colour, in row-major order.
pub open spec fn grouped(g: Grid) -> bool {
    &&& is_grid(g)
    &&& forall|c: (usize, usize)| #[trigger]
        within(g.len(), c) && !(at(g, c) is Empty) ==> at(g, c).stones() == ordered(
            group_set(g, c.0, c.1, at(g, c).state()),
        )
}

/// A walk read backwards is a walk.
pub proof fn lemma_connected_back(g: Grid, color: usize, a: (usize, usize), b: (usize, usize))
    requires
        connected(g, color, a, b),
    ensures
        connected(g, color, b, a),
{
    let path = choose|path: Seq<(usize, usize)>| #[trigger]
        is_chain(g, color, path) && path[0] == a && path.last() == b;
    let back = path.reverse();
    assert forall|k: int| 0 <= k < back.len() implies within(g.len(), #[trigger] back[k]) && has_color(
        at(g, back[k]),
        color,
    ) by {
        assert(back[k] == path[path.len() - 1 - k]);
    }
    assert forall|k: int| 0 <= k < back.len() - 1 implies adjacent(
        #[trigger] back[k],
        back[k + 1],
    ) by {
        assert(back[k] == path[path.len() - 1 - k]);
        assert(back[k + 1] == path[path.len() - 2 - k]);
        assert(adjacent(path[path.len() - 2 - k], path[path.len() - 2 - k + 1]));
    }
    assert(is_chain(g, color, back));
    assert(back[0] == path[path.len() - 1]);
    assert(back.last() == path[0]);
}

/// Two walks that meet make one walk.
pub proof fn lemma_connected_on(
    g: Grid,
    color: usize,
    a: (usize, usize),
    b: (usize, usize),
    c: (usize, usize),
)
    requires
        connected(g, color, a, b),
        connected(g, color, b, c),
    ensures
        connected(g, color, a, c),
{
    let p = choose|path: Seq<(usize, usize)>| #[trigger]
        is_chain(g, color, path) && path[0] == a && path.last() == b;
    let q = choose|path: Seq<(usize, usize)>| #[trigger]
        is_chain(g, color, path) && path[0] == b && path.last() == c;
    let r = p + q.subrange(1, q.len() as int);
    assert forall|k: int| 0 <= k < r.len() implies within(g.len(), #[trigger] r[k]) && has_color(
        at(g, r[k]),
        color,
    ) by {
        if k < p.len() {
            assert(r[k] == p[k]);
        } else {
            assert(r[k] == q[k - p.len() + 1]);
        }
    }
    assert forall|k: int| 0 <= k < r.len() - 1 implies adjacent(#[trigger] r[k], r[k + 1]) by {
        if k < p.len() - 1 {
            assert(r[k] == p[k]);
            assert(r[k + 1] == p[k + 1]);
        } else if k == p.len() - 1 {
            assert(r[k] == p[k]);
            assert(p[k] == q[0]);
            assert(r[k + 1] == q[1]);
            assert(adjacent(q[0], q[0int + 1]));
        } else {
            assert(r[k] == q[k - p.len() + 1]);
            assert(r[k + 1] == q[k - p.len() + 2]);
            assert(adjacent(q[k - p.len() + 1], q[k - p.len() + 1 + 1]));
        }
    }
    assert(is_chain(g, color, r));
    assert(r[0] == p[0]);
    if q.len() > 1 {
        assert(r.last() == q[q.len() - 1]);
    } else {
        assert(r.last() == p[p.len() - 1]);
    }
}

/// Stones that are connected belong to the same group.
pub proof fn lemma_same_group(g: Grid, color: usize, a: (usize, usize), b: (usize, usize))
    requires
        connected(g, color, a, b),
    ensures
        group_set(g, a.0, a.1, color) == group_set(g, b.0, b.1, color),
{
    lemma_connected_back(g, color, a, b);
    assert forall|c: (usize, usize)| connected(g, color, a, c) == connected(g, color, b, c) by {
        if connected(g, color, a, c) {
            lemma_connected_on(g, color, b, a, c);
        }
        if connected(g, color, b, c) {
            lemma_connected_on(g, color, a, b, c);
        }
    }
    assert(group_set(g, a.0, a.1, color) =~= group_set(g, b.0, b.1, color));
}

/// The start of a walk is connected to each of its stones.
pub proof fn lemma_connected_along(g: Grid, color: usize, path: Seq<(usize, usize)>, k: int)
    requires
        is_chain(g, color, path),
        0 <= k < path.len(),
    ensures
        connected(g, color, path[0], path[k]),
{
    let part = path.subrange(0, k + 1);
    assert forall|w: int| 0 <= w < part.len() implies within(g.len(), #[trigger] part[w]) && has_color(
        at(g, part[w]),
        color,
    ) by {
        assert(part[w] == path[w]);
    }
    assert forall|w: int| 0 <= w < part.len() - 1 implies adjacent(
        #[trigger] part[w],
        part[w + 1],
    ) by {
        assert(part[w] == path[w]);
        assert(part[w + 1] == path[w + 1]);
    }
    assert(is_chain(g, color, part));
    assert(part[0] == path[0]);
    assert(part.last() == path[k]);
}

/// A board on which every stone records its group is sound.
pub proof fn lemma_grouped_sound(g: Grid)
    requires
        grouped(g),
    ensures
        sound(g),
{
    assert forall|c: (usize, usize), k: int|
        within(g.len(), c) && 0 <= k < at(g, c).stones().len() implies within(
        g.len(),
        #[trigger] at(g, c).stones()[k],
    ) by {
        if !(at(g, c) is Empty) {
            let s = group_set(g, c.0, c.1, at(g, c).state());
            lemma_ordered(s);
            assert(ordered(s).contains(ordered(s)[k]));
        }
    }
    assert forall|c: (usize, usize)| within(g.len(), c) && !(#[trigger] at(g, c) is Empty) implies at(
        g,
        c,
    ).stones().contains(c) by {
        let s = group_set(g, c.0, c.1, at(g, c).state());
        lemma_ordered(s);
        lemma_connected_self(g, at(g, c).state(), c);
        assert(s.contains(c));
    }
}

/// An empty board is a board on which every stone records its group.
pub proof fn law_empty_board_is_grouped(n: nat)
    requires
        valid_size(n),
    ensures
        grouped(empty_grid(n)),
{
}

/// Of two akin boards, both are boards on which every stone records its
/// group, or neither is.
pub proof fn lemma_grouped_akin(a: Grid, b: Grid)
    requires
        akin(a, b),
        grouped(a),
    ensures
        grouped(b),
{
    assert forall|c: (usize, usize)| #[trigger] within(b.len(), c) && !(at(b, c) is Empty) implies at(
        b,
        c,
    ).stones() == ordered(group_set(b, c.0, c.1, at(b, c).state())) by {
        assert(at(a, c).state() == at(b, c).state());
        assert(at(a, c).stones() == at(b, c).stones());
        lemma_akin_groups(a, b, c.0, c.1, at(a, c).state());
    }
}

/// A stone set down on an empty point, with its group recorded, leaves a
/// board on which every stone records its group.
pub proof fn lemma_grouped_placed(g: Grid, x: usize, y: usize, color: usize)
    requires
        grouped(g),
        x < g.len(),
        y < g.len(),
        at(g, (x, y)) is Empty,
        color == BLACK || color == WHITE,
    ensures
        grouped(with_group(put(g, (x, y), new_stone(color)), x, y, color)),
{
    let here = (x, y);
    let p = put(g, here, new_stone(color));
    let h = with_group(p, x, y, color);
    let s = group_set(p, x, y, color);
    lemma_grouped_sound(g);
    lemma_settled_sound(g, x, y, color);
    assert(within(g.len(), here));
    lemma_connected_self(p, color, here);
    assert(s.contains(here));
    assert forall|c: (usize, usize)| #[trigger] within(g.len(), c) implies at(p, c).state() == at(
        h,
        c,
    ).state() by {}
    assert forall|c: (usize, usize)| #[trigger] within(h.len(), c) && !(at(h, c) is Empty) implies at(
        h,
        c,
    ).stones() == ordered(group_set(h, c.0, c.1, at(h, c).state())) by {
        let col = at(h, c).state();
        assert(at(p, c).state() == col);
        lemma_states_groups(p, h, c.0, c.1, col);
        if s.contains(c) {
            lemma_connected_color(p, color, here, c);
            assert(col == color);
            lemma_same_group(p, color, here, c);
        } else {
            assert(c != here);
            assert(at(h, c) == at(g, c));
            assert(at(p, c) == at(g, c));
            assert forall|d: (usize, usize)| connected(p, col, c, d) == connected(g, col, c, d) by {
                if connected(g, col, c, d) {
                    let path = choose|path: Seq<(usize, usize)>| #[trigger]
                        is_chain(g, col, path) && path[0] == c && path.last() == d;
                    assert forall|k: int| 0 <= k < path.len() implies within(g.len(), #[trigger] path[k])
                        && has_color(at(p, path[k]), col) by {
                        assert(has_color(at(g, path[k]), col));
                        assert(path[k] != here);
                        assert(at(p, path[k]) == at(g, path[k]));
                    }
                    assert(is_chain(p, col, path));
                }
                if connected(p, col, c, d) {
                    let path = choose|path: Seq<(usize, usize)>| #[trigger]
                        is_chain(p, col, path) && path[0] == c && path.last() == d;
                    assert forall|k: int| 0 <= k < path.len() implies within(g.len(), #[trigger] path[k])
                        && has_color(at(g, path[k]), col) by {
                        assert(has_color(at(p, path[k]), col));
                        if path[k] == here {
                            assert(col == color);
                            lemma_connected_along(p, col, path, k);
                            lemma_connected_back(p, col, c, here);
                            assert(s.contains(c));
                        }
                        assert(at(p, path[k]) == at(g, path[k]));
                    }
                    assert(is_chain(g, col, path));
                }
            }
            assert(group_set(p, c.0, c.1, col) =~= group_set(g, c.0, c.1, col));
        }
    }
}

/// Boards that show the same stones hold the same groups.
pub proof fn lemma_states_groups(a: Grid, b: Grid, x: usize, y: usize, color: usize)
    requires
        is_grid(a),
        is_grid(b),
        a.len() == b.len(),
        forall|c: (usize, usize)| #[trigger] within(a.len(), c) ==> at(a, c).state() == at(b, c).state(),
    ensures
        group_set(a, x, y, color) == group_set(b, x, y, color),
{
    assert forall|path: Seq<(usize, usize)>| is_chain(a, color, path) == is_chain(b, color, path) by {
        if is_chain(a, color, path) {
            assert forall|k: int| 0 <= k < path.len() implies within(a.len(), #[trigger] path[k]) && has_color(
                at(b, path[k]),
                color,
            ) by {
                assert(within(a.len(), path[k]));
                assert(at(a, path[k]).state() == at(b, path[k]).state());
            }
        }
        if is_chain(b, color, path) {
            assert forall|k: int| 0 <= k < path.len() implies within(a.len(), #[trigger] path[k]) && has_color(
                at(a, path[k]),
                color,
            ) by {
                assert(within(a.len(), path[k]));
                assert(at(a, path[k]).state() == at(b, path[k]).state());
            }
        }
    }
    assert forall|c: (usize, usize)| connected(a, color, (x, y), c) == connected(b, color, (x, y), c) by {
        if connected(a, color, (x, y), c) {
            let path = choose|path: Seq<(usize, usize)>| #[trigger]
                is_chain(a, color, path) && path[0] == (x, y) && path.last() == c;
            assert(is_chain(b, color, path));
        }
        if connected(b, color, (x, y), c) {
            let path = choose|path: Seq<(usize, usize)>| #[trigger]
                is_chain(b, color, path) && path[0] == (x, y) && path.last() == c;
            assert(is_chain(a, color, path));
        }
    }
    assert(group_set(a, x, y, color) =~= group_set(b, x, y, color));
}

/// Whether every stone of `dead` has the colour `opp` and lies in a group
/// all of whose stones are in `dead`.
pub open spec fn whole_groups(g: Grid, dead: Seq<(usize, usize)>, opp: usize) -> bool {
    forall|k: int|
        0 <= k < dead.len() ==> {
            &&& within(g.len(), #[trigger] dead[k])
            &&& has_color(at(g, dead[k]), opp)
            &&& forall|d: (usize, usize)|
                connected(g, opp, dead[k], d) ==> #[trigger] dead.contains(d)
        }
}

/// The stones that a sweep finds without liberties on a board on which
/// every stone records its group are whole groups of the opposing colour.
pub proof fn lemma_sweep_whole(g: Grid, ns: Seq<(usize, usize)>, opp: usize)
    requires
        grouped(g),
        forall|k: int| 0 <= k < ns.len() ==> within(g.len(), #[trigger] ns[k]),
    ensures
        whole_groups(g, sweep_dead(g, ns, opp), opp),
    decreases ns.len(),
{
    lemma_grouped_sound(g);
    if ns.len() > 0 {
        let rest = ns.drop_last();
        let n = ns.last();
        assert(within(g.len(), ns[ns.len() - 1]));
        assert forall|k: int| 0 <= k < rest.len() implies within(g.len(), #[trigger] rest[k]) by {
            assert(rest[k] == ns[k]);
        }
        lemma_sweep_whole(g, rest, opp);
        lemma_sweep_keeps(g, ns, opp);
        let before = sweep_dead(g, rest, opp);
        let w = sweep_grid(g, ns, opp);
        let here = doomed(w, n, opp);
        let dead = sweep_dead(g, ns, opp);
        assert(dead == before + here);
        assert(at(w, n).stones() == at(g, n).stones());
        assert(at(w, n).state() == at(g, n).state());
        assert forall|k: int| 0 <= k < dead.len() implies {
            &&& within(g.len(), #[trigger] dead[k])
            &&& has_color(at(g, dead[k]), opp)
            &&& forall|d: (usize, usize)| connected(g, opp, dead[k], d) ==> #[trigger] dead.contains(d)
        } by {
            if k < before.len() {
                assert(dead[k] == before[k]);
                assert forall|d: (usize, usize)| connected(g, opp, dead[k], d) implies #[trigger] dead.contains(
                    d,
                ) by {
                    assert(before.contains(d));
                    let w2 = choose|w2: int| 0 <= w2 < before.len() && before[w2] == d;
                    assert(dead[w2] == d);
                }
            } else {
                let j = k - before.len();
                assert(dead[k] == here[j]);
                assert(has_color(at(g, n), opp));
                let s = group_set(g, n.0, n.1, opp);
                lemma_ordered(s);
                assert(here == ordered(s));
                assert(ordered(s).contains(here[j]));
                assert(s.contains(dead[k]));
                lemma_connected_color(g, opp, n, dead[k]);
                assert forall|d: (usize, usize)| connected(g, opp, dead[k], d) implies #[trigger] dead.contains(
                    d,
                ) by {
                    lemma_connected_on(g, opp, n, dead[k], d);
                    assert(s.contains(d));
                    lemma_connected_color(g, opp, n, d);
                    assert(ordered(s).contains(d));
                    let w2 = choose|w2: int| 0 <= w2 < here.len() && here[w2] == d;
                    assert(dead[before.len() + w2] == d);
                }
            }
        }
    }
}

/// Taking whole groups off a board on which every stone records its group
/// leaves a board of that kind.
pub proof fn lemma_grouped_cleared(g: Grid, dead: Seq<(usize, usize)>, opp: usize)
    requires
        grouped(g),
        whole_groups(g, dead, opp),
    ensures
        grouped(cleared(g, dead, dead.len() as int)),
{
    let m = cleared(g, dead, dead.len() as int);
    assert forall|c: (usize, usize)| #[trigger] within(m.len(), c) && !(at(m, c) is Empty) implies at(
        m,
        c,
    ).stones() == ordered(group_set(m, c.0, c.1, at(m, c).state())) by {
        let col = at(m, c).state();
        assert(!among(dead, dead.len() as int, c));
        assert(at(m, c) == at(g, c));
        assert forall|d: (usize, usize)| connected(m, col, c, d) == connected(g, col, c, d) by {
            if connected(m, col, c, d) {
                let path = choose|path: Seq<(usize, usize)>| #[trigger]
                    is_chain(m, col, path) && path[0] == c && path.last() == d;
                assert forall|k: int| 0 <= k < path.len() implies within(g.len(), #[trigger] path[k])
                    && has_color(at(g, path[k]), col) by {
                    assert(has_color(at(m, path[k]), col));
                    assert(at(m, path[k]) == at(g, path[k]));
                }
                assert(is_chain(g, col, path));
            }
            if connected(g, col, c, d) {
                let path = choose|path: Seq<(usize, usize)>| #[trigger]
                    is_chain(g, col, path) && path[0] == c && path.last() == d;
                assert forall|k: int| 0 <= k < path.len() implies within(g.len(), #[trigger] path[k])
                    && has_color(at(m, path[k]), col) by {
                    assert(has_color(at(g, path[k]), col));
                    if among(dead, dead.len() as int, path[k]) {
                        let w = choose|w: int| 0 <= w < dead.len() && #[trigger] dead[w] == path[k];
                        assert(has_color(at(g, dead[w]), opp));
                        assert(col == opp);
                        lemma_connected_along(g, col, path, k);
                        lemma_connected_back(g, col, c, path[k]);
                        assert(dead.contains(c));
                        let v = choose|v: int| 0 <= v < dead.len() && dead[v] == c;
                        assert(dead[v] == c);
                        assert(among(dead, dead.len() as int, c));
                    }
                    assert(at(m, path[k]) == at(g, path[k]));
                }
                assert(is_chain(m, col, path));
            }
        }
        assert(group_set(m, c.0, c.1, col) =~= group_set(g, c.0, c.1, col));
    }
}

/// On a board on which every stone records the group it belongs to, a move
/// of a real colour onto an empty point leaves a board of that kind: every
/// stone still belongs to exactly the group that it records.
pub proof fn law_groups_stay_right(g: Grid, x: usize, y: usize, color: usize)
    requires
        grouped(g),
        x < g.len(),
        y < g.len(),
        at(g, (x, y)) is Empty,
        color == BLACK || color == WHITE,
    ensures
        grouped(moved(g, x, y, color)),
{
    let p = put(g, (x, y), new_stone(color));
    let h = with_group(p, x, y, color);
    let s = settled(g, x, y, color);
    let opp = opponent(color);
    let ns = neighbours(g.len(), x, y);
    lemma_grouped_sound(g);
    lemma_settled_sound(g, x, y, color);
    lemma_grouped_placed(g, x, y, color);
    lemma_akin_with_liberties(h, x, y, color);
    lemma_grouped_akin(h, s);
    lemma_neighbours_on_board(g.len(), x, y);
    lemma_sweep_whole(s, ns, opp);
    let w = sweep_grid(s, ns, opp);
    let dead = sweep_dead(s, ns, opp);
    lemma_sweep_keeps(s, ns, opp);
    assert(akin(s, w)) by {
        assert forall|c: (usize, usize)| #[trigger] within(s.len(), c) implies at(s, c).state() == at(
            w,
            c,
        ).state() && at(s, c).stones() == at(w, c).stones() by {
            assert(at(w, c).stones() == at(s, c).stones());
        }
    }
    lemma_grouped_akin(s, w);
    assert(whole_groups(w, dead, opp)) by {
        assert forall|k: int| 0 <= k < dead.len() implies {
            &&& within(g.len(), #[trigger] dead[k])
            &&& has_color(at(w, dead[k]), opp)
            &&& forall|d: (usize, usize)| connected(w, opp, dead[k], d) ==> #[trigger] dead.contains(d)
        } by {
            assert(at(s, dead[k]).state() == at(w, dead[k]).state());
            lemma_akin_groups(s, w, dead[k].0, dead[k].1, opp);
            assert forall|d: (usize, usize)| connected(w, opp, dead[k], d) implies #[trigger] dead.contains(
                d,
            ) by {
                assert(group_set(w, dead[k].0, dead[k].1, opp).contains(d));
                assert(group_set(s, dead[k].0, dead[k].1, opp).contains(d));
            }
        }
    }
    lemma_grouped_cleared(w, dead, opp);
}

/// A legal move keeps the record of every stone's group right.
pub proof fn law_legal_moves_keep_groups(g: Grid, z: ZobristView, x: usize, y: usize, color: usize)
    requires
        grouped(g),
        legal(g, z, x, y, color),
    ensures
        grouped(moved(g, x, y, color)),
{
    law_groups_stay_right(g, x, y, color);
}

/// A move that goes through validation keeps a game in order: where the
/// live board is the board of the cursor and every stone on it records the
/// group it belongs to, the same holds after the move, be it applied or
/// passed over.
pub proof fn law_play_keeps_order(s: SessionView, m: (usize, usize, usize))
    requires
        s.wf(),
        s.board == s.tree.nodes[s.tree.curr as int].board(),
        grouped(s.board),
        s.tree.nodes.len() < usize::MAX,
    ensures
        s.played(m).board == s.played(m).tree.nodes[s.played(m).tree.curr as int].board(),
        grouped(s.played(m).board),
{
    if legal(s.board, s.hash, m.0, m.1, m.2) {
        law_legal_moves_keep_groups(s.board, s.hash, m.0, m.1, m.2);
        let after = s.played(m);
        assert(after.tree.curr == s.tree.nodes.len());
        assert(after.tree.nodes[s.tree.nodes.len() as int].board() == after.board);
    }
}

} // verus!
