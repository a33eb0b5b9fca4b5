//! What holds of the rules and the history as a whole.

use vstd::prelude::*;
use crate::capture::lemma_with_liberties_keeps;
use crate::cells::{adjacent, lemma_ordered, ordered, within};
use crate::go::{
    among, at, breath_of, liberty_set, relabel, well_formed, with_liberties, Grid, Point, BLACK,
};

verus! {

/// Whether a stone passes the colour filter of a recomputation: black
/// stones for colour 1, white stones for any other.
pub open spec fn passes(p: Point, color: usize) -> bool {
    (p is Black && color == BLACK) || (p is White && color != BLACK)
}

/// After the liberties of the group recorded at `(x, y)` have been
/// recomputed, every stone of that group that passes the colour filter
/// records exactly the union of the empty neighbours of the group's stones:
/// a point is among its liberties if and only if it lies on the board, is
/// empty and is next to a stone of the group. No liberty is listed twice.
pub proof fn law_liberties_are_empty_neighbours(
    g: Grid,
    x: usize,
    y: usize,
    color: usize,
    s: (usize, usize),
    c: (usize, usize),
)
    requires
        well_formed(g),
        x < g.len(),
        y < g.len(),
        within(g.len(), s),
        at(g, (x, y)).stones().contains(s),
        passes(at(g, s), color),
    ensures
        at(with_liberties(g, x, y, color), s).liberties().no_duplicates(),
        at(with_liberties(g, x, y, color), s).liberties().contains(c) <==> (within(g.len(), c) && at(
            g,
            c,
        ) is Empty && exists|k: int|
            0 <= k < at(g, (x, y)).stones().len() && within(g.len(), #[trigger] at(g, (x, y)).stones()[k])
                && !(at(g, at(g, (x, y)).stones()[k]) is Empty) && adjacent(
                at(g, (x, y)).stones()[k],
                c,
            )),
{
    let stones = at(g, (x, y)).stones();
    let set = liberty_set(g, stones);
    lemma_ordered(set);
    let w = choose|w: int| 0 <= w < stones.len() && stones[w] == s;
    assert(stones[w] == s);
    assert(among(stones, stones.len() as int, s));
    assert(at(with_liberties(g, x, y, color), s).liberties() == ordered(set));
    if set.contains(c) {
        let k = choose|k: int| 0 <= k < stones.len() && breath_of(g, #[trigger] stones[k], c);
        assert(within(g.len(), stones[k]));
    }
    if within(g.len(), c) && at(g, c) is Empty && exists|k: int|
        0 <= k < stones.len() && within(g.len(), #[trigger] stones[k]) && !(at(g, stones[k]) is Empty)
            && adjacent(stones[k], c) {
        let k = choose|k: int|
            0 <= k < stones.len() && within(g.len(), #[trigger] stones[k]) && !(at(g, stones[k]) is Empty)
                && adjacent(stones[k], c);
        assert(breath_of(g, stones[k], c));
    }
}

/// Recomputing the liberties of a group a second time, with nothing
/// changed in between, changes nothing.
pub proof fn law_liberties_idempotent(g: Grid, x: usize, y: usize, color: usize)
    requires
        well_formed(g),
        x < g.len(),
        y < g.len(),
    ensures
        with_liberties(with_liberties(g, x, y, color), x, y, color) == with_liberties(g, x, y, color),
{
    let h = with_liberties(g, x, y, color);
    let stones = at(g, (x, y)).stones();
    lemma_with_liberties_keeps(g, x, y, color);
    assert(within(g.len(), (x, y)));
    assert(at(h, (x, y)).stones() == stones);
    assert(liberty_set(h, stones) =~= liberty_set(g, stones)) by {
        assert forall|c: (usize, usize)| liberty_set(h, stones).contains(c) == liberty_set(
            g,
            stones,
        ).contains(c) by {
            assert forall|k: int| 0 <= k < stones.len() implies breath_of(h, #[trigger] stones[k], c)
                == breath_of(g, stones[k], c) by {
                if within(g.len(), c) && within(g.len(), stones[k]) {
                    assert(at(h, c).state() == at(g, c).state());
                    assert(at(h, stones[k]).state() == at(g, stones[k]).state());
                }
            }
            if liberty_set(h, stones).contains(c) {
                let k = choose|k: int| 0 <= k < stones.len() && breath_of(h, #[trigger] stones[k], c);
                assert(breath_of(g, stones[k], c));
            }
            if liberty_set(g, stones).contains(c) {
                let k = choose|k: int| 0 <= k < stones.len() && breath_of(g, #[trigger] stones[k], c);
                assert(breath_of(h, stones[k], c));
            }
        }
    }
    let libs = ordered(liberty_set(g, stones));
    assert(with_liberties(h, x, y, color) =~~= h) by {
        assert forall|i: int, j: int| 0 <= i < g.len() && 0 <= j < g.len() implies with_liberties(
            h,
            x,
            y,
            color,
        )[i][j] == h[i][j] by {
            assert(relabel(relabel(g[i][j], color, libs), color, libs) == relabel(g[i][j], color, libs));
        }
    }
}

} // verus!
