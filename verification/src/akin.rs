//! Grids that show the same stones with the same recorded groups, whatever
//! liberties they record. The rules read recorded liberties only after
//! recomputing them, so such grids are judged alike.

use vstd::prelude::*;
use crate::capture::{
    captured, cleared, doomed, found_dead, lemma_neighbours_on_board, lemma_settled_sound,
    lemma_sweep_keeps, lemma_with_liberties_keeps, moved, neighbours, new_stone, opponent, put,
    settled, sweep_dead, sweep_grid,
};
use crate::cells::{cell_at, ordered, within, CELLS, COLS, ROWS};
use crate::chain::{connected, group_set, has_color, is_chain};
use crate::go::{
    among, at, breath_of, is_grid, liberty_set, sound, well_formed, with_group, with_liberties, Grid,
    GoError, ZobristView, BLACK, WHITE,
};
use crate::position::{lemma_hash_of_stones, position_hash, same_stones};

verus! {

/// Whether two grids of one size show the same stones with the same
/// recorded groups.
pub open spec fn akin(a: Grid, b: Grid) -> bool {
    &&& is_grid(a)
    &&& is_grid(b)
    &&& a.len() == b.len()
    &&& forall|c: (usize, usize)| #[trigger]
        within(a.len(), c) ==> at(a, c).state() == at(b, c).state() && at(a, c).stones() == at(
            b,
            c,
        ).stones()
}

/// The number of liberties of the group recorded at `n`, counted afresh.
pub open spec fn fresh_liberties(g: Grid, n: (usize, usize)) -> nat {
    ordered(liberty_set(g, at(g, n).stones())).len()
}

/// Whether the neighbour `n` lets a stone of the given colour breathe: it is
/// empty, or it holds a stone of that colour whose group has a liberty to spare.
pub open spec fn gives_breath(g: Grid, n: (usize, usize), color: usize) -> bool {
    at(g, n) is Empty || (has_color(at(g, n), color) && fresh_liberties(g, n) > 1)
}

/// Whether a stone of the given colour next to `n` captures the group at
/// `n`: it holds an opposing stone whose group has one liberty left.
pub open spec fn takes(g: Grid, n: (usize, usize), color: usize) -> bool {
    has_color(at(g, n), opponent(color)) && fresh_liberties(g, n) == 1
}

/// Whether one of the first `n` of the neighbours `ns` lets a stone of the
/// given colour breathe.
pub open spec fn any_breath(g: Grid, ns: Seq<(usize, usize)>, n: int, color: usize) -> bool {
    exists|k: int| 0 <= k < n && gives_breath(g, #[trigger] ns[k], color)
}

/// Whether a stone of the given colour captures the group at one of the
/// first `n` of the neighbours `ns`.
pub open spec fn any_take(g: Grid, ns: Seq<(usize, usize)>, n: int, color: usize) -> bool {
    exists|k: int| 0 <= k < n && takes(g, #[trigger] ns[k], color)
}

/// Whether a stone of the given colour at `(x, y)` would not be a suicide:
/// some neighbour lets it breathe or is captured by it.
pub open spec fn alive(g: Grid, x: usize, y: usize, color: usize) -> bool {
    let ns = neighbours(g.len(), x, y);
    any_breath(g, ns, ns.len() as int, color) || any_take(g, ns, ns.len() as int, color)
}

/// Whether a move is legal: the coordinate lies on the board, the colour is
/// black or white, the point is empty, the stone would not be a suicide, and
/// the position after the move, captures taken off, is none that the game
/// has passed through. The last condition is positional superko: no
/// position of the whole board may ever come back, which forbids more than
/// the immediate recapture of a ko.
pub open spec fn legal(g: Grid, z: ZobristView, x: usize, y: usize, color: usize) -> bool {
    &&& x < g.len()
    &&& y < g.len()
    &&& (color == BLACK || color == WHITE)
    &&& at(g, (x, y)) is Empty
    &&& alive(g, x, y, color)
    &&& !z.repeats(moved(g, x, y, color))
}

/// Why a move is refused, or that it is not: a coordinate off the board, a
/// point that is taken, a stone that would have no liberty and capture
/// nothing, a position that the game has passed through.
pub open spec fn verdict(g: Grid, z: ZobristView, x: usize, y: usize, color: usize) -> Result<
    (),
    GoError,
> {
    if !(x < g.len() && y < g.len()) {
        Err(GoError::OutOfBounds)
    } else if !(at(g, (x, y)) is Empty) {
        Err(GoError::OccupiedCell)
    } else if !alive(g, x, y, color) {
        Err(GoError::SuicideMove)
    } else if z.repeats(moved(g, x, y, color)) {
        Err(GoError::KoViolation)
    } else {
        Ok(())
    }
}

/// A move is legal exactly if its colour is black or white and nothing
/// speaks against it.
pub proof fn law_legal_by_verdict(g: Grid, z: ZobristView, x: usize, y: usize, color: usize)
    ensures
        legal(g, z, x, y, color) == ((color == BLACK || color == WHITE) && verdict(g, z, x, y, color)
            is Ok),
{
}

/// A grid is akin to itself.
pub proof fn lemma_akin_self(g: Grid)
    requires
        is_grid(g),
    ensures
        akin(g, g),
{
}

/// Being akin carries over from two pairs to the outer pair.
pub proof fn lemma_akin_chain(a: Grid, b: Grid, c: Grid)
    requires
        akin(a, b),
        akin(b, c),
    ensures
        akin(a, c),
{
    assert forall|d: (usize, usize)| #[trigger] within(a.len(), d) implies at(a, d).state() == at(c, d).state()
        && at(a, d).stones() == at(c, d).stones() by {}
}

/// Recomputing liberties yields an akin grid.
pub proof fn lemma_akin_with_liberties(g: Grid, x: usize, y: usize, color: usize)
    requires
        well_formed(g),
    ensures
        akin(g, with_liberties(g, x, y, color)),
{
    lemma_with_liberties_keeps(g, x, y, color);
    let h = with_liberties(g, x, y, color);
    assert forall|c: (usize, usize)| #[trigger] within(g.len(), c) implies at(g, c).state() == at(h, c).state()
        && at(g, c).stones() == at(h, c).stones() by {
        assert(at(h, c).stones() == at(g, c).stones());
    }
}

/// Akin grids give a list of stones the same liberties.
pub proof fn lemma_akin_liberties(a: Grid, b: Grid, stones: Seq<(usize, usize)>)
    requires
        akin(a, b),
    ensures
        liberty_set(a, stones) == liberty_set(b, stones),
{
    assert forall|c: (usize, usize)| liberty_set(a, stones).contains(c) == liberty_set(
        b,
        stones,
    ).contains(c) by {
        assert forall|k: int| 0 <= k < stones.len() implies breath_of(a, #[trigger] stones[k], c)
            == breath_of(b, stones[k], c) by {
            if within(a.len(), c) && within(a.len(), stones[k]) {
                assert(at(a, c).state() == at(b, c).state());
                assert(at(a, stones[k]).state() == at(b, stones[k]).state());
            }
        }
        if liberty_set(a, stones).contains(c) {
            let k = choose|k: int| 0 <= k < stones.len() && breath_of(a, #[trigger] stones[k], c);
            assert(breath_of(b, stones[k], c));
        }
        if liberty_set(b, stones).contains(c) {
            let k = choose|k: int| 0 <= k < stones.len() && breath_of(b, #[trigger] stones[k], c);
            assert(breath_of(a, stones[k], c));
        }
    }
    assert(liberty_set(a, stones) =~= liberty_set(b, stones));
}

/// Akin grids judge a neighbour alike.
pub proof fn lemma_akin_checks(a: Grid, b: Grid, n: (usize, usize), color: usize)
    requires
        akin(a, b),
        within(a.len(), n),
    ensures
        gives_breath(a, n, color) == gives_breath(b, n, color),
        takes(a, n, color) == takes(b, n, color),
        fresh_liberties(a, n) == fresh_liberties(b, n),
{
    lemma_akin_liberties(a, b, at(a, n).stones());
    assert(at(a, n).state() == at(b, n).state());
}

/// Akin grids are judged alike at every neighbour of a point.
pub proof fn lemma_akin_alive(a: Grid, b: Grid, x: usize, y: usize, color: usize)
    requires
        akin(a, b),
        x < a.len(),
        y < a.len(),
    ensures
        alive(a, x, y, color) == alive(b, x, y, color),
{
    let ns = neighbours(a.len(), x, y);
    lemma_neighbours_on_board(a.len(), x, y);
    assert forall|k: int| 0 <= k < ns.len() implies gives_breath(a, #[trigger] ns[k], color)
        == gives_breath(b, ns[k], color) && takes(a, ns[k], color) == takes(b, ns[k], color) by {
        lemma_akin_checks(a, b, ns[k], color);
    }
    if any_breath(a, ns, ns.len() as int, color) {
        let k = choose|k: int| 0 <= k < ns.len() && gives_breath(a, #[trigger] ns[k], color);
        assert(gives_breath(b, ns[k], color));
    }
    if any_breath(b, ns, ns.len() as int, color) {
        let k = choose|k: int| 0 <= k < ns.len() && gives_breath(b, #[trigger] ns[k], color);
        assert(gives_breath(a, ns[k], color));
    }
    if any_take(a, ns, ns.len() as int, color) {
        let k = choose|k: int| 0 <= k < ns.len() && takes(a, #[trigger] ns[k], color);
        assert(takes(b, ns[k], color));
    }
    if any_take(b, ns, ns.len() as int, color) {
        let k = choose|k: int| 0 <= k < ns.len() && takes(b, #[trigger] ns[k], color);
        assert(takes(a, ns[k], color));
    }
}

/// After its liberties have been recomputed, a stone of the filter's colour
/// on a sound grid records the liberties of its group, counted afresh.
pub proof fn lemma_recount(g: Grid, n: (usize, usize), color: usize)
    requires
        sound(g),
        within(g.len(), n),
        has_color(at(g, n), color),
    ensures
        at(with_liberties(g, n.0, n.1, color), n).liberties() == ordered(
            liberty_set(g, at(g, n).stones()),
        ),
        at(with_liberties(g, n.0, n.1, color), n).liberties().len() == fresh_liberties(g, n),
{
    let stones = at(g, n).stones();
    assert(stones.contains(n));
    let k = choose|k: int| 0 <= k < stones.len() && stones[k] == n;
    assert(stones[k] == n);
    assert(among(stones, stones.len() as int, n));
}

/// Akin grids hold the same groups.
pub proof fn lemma_akin_groups(a: Grid, b: Grid, x: usize, y: usize, color: usize)
    requires
        akin(a, b),
    ensures
        group_set(a, x, y, color) == group_set(b, x, y, color),
{
    assert forall|path: Seq<(usize, usize)>| is_chain(a, color, path) == is_chain(b, color, path) by {
        if is_chain(a, color, path) {
            assert forall|k: int| 0 <= k < path.len() implies within(a.len(), #[trigger] path[k]) && has_color(
                at(b, path[k]),
                color,
            ) by {
                assert(within(a.len(), path[k]));
                assert(at(a, path[k]).state() == at(b, path[k]).state());
            }
        }
        if is_chain(b, color, path) {
            assert forall|k: int| 0 <= k < path.len() implies within(a.len(), #[trigger] path[k]) && has_color(
                at(a, path[k]),
                color,
            ) by {
                assert(within(a.len(), path[k]));
                assert(at(a, path[k]).state() == at(b, path[k]).state());
            }
        }
    }
    assert forall|c: (usize, usize)| connected(a, color, (x, y), c) == connected(b, color, (x, y), c) by {
        if connected(a, color, (x, y), c) {
            let path = choose|path: Seq<(usize, usize)>| #[trigger]
                is_chain(a, color, path) && path[0] == (x, y) && path.last() == c;
            assert(is_chain(b, color, path));
        }
        if connected(b, color, (x, y), c) {
            let path = choose|path: Seq<(usize, usize)>| #[trigger]
                is_chain(b, color, path) && path[0] == (x, y) && path.last() == c;
            assert(is_chain(a, color, path));
        }
    }
    assert(group_set(a, x, y, color) =~= group_set(b, x, y, color));
}

/// Setting down a stone and recording its group and liberties keeps two
/// grids akin.
pub proof fn lemma_akin_settled(a: Grid, b: Grid, x: usize, y: usize, color: usize)
    requires
        akin(a, b),
        well_formed(a),
        well_formed(b),
        x < a.len(),
        y < a.len(),
    ensures
        akin(settled(a, x, y, color), settled(b, x, y, color)),
{
    let pa = put(a, (x, y), new_stone(color));
    let pb = put(b, (x, y), new_stone(color));
    assert(akin(pa, pb)) by {
        assert forall|c: (usize, usize)| #[trigger] within(pa.len(), c) implies at(pa, c).state() == at(
            pb,
            c,
        ).state() && at(pa, c).stones() == at(pb, c).stones() by {
            if c != (x, y) {
                assert(at(pa, c) == at(a, c));
                assert(at(pb, c) == at(b, c));
            }
        }
    }
    lemma_akin_groups(pa, pb, x, y, color);
    let ga = with_group(pa, x, y, color);
    let gb = with_group(pb, x, y, color);
    assert(akin(ga, gb)) by {
        assert forall|c: (usize, usize)| #[trigger] within(ga.len(), c) implies at(ga, c).state() == at(
            gb,
            c,
        ).state() && at(ga, c).stones() == at(gb, c).stones() by {
            assert(at(pa, c).state() == at(pb, c).state());
            assert(at(pa, c).stones() == at(pb, c).stones());
        }
    }
    lemma_settled_sound(a, x, y, color);
    lemma_settled_sound(b, x, y, color);
    lemma_akin_with_liberties(ga, x, y, color);
    lemma_akin_with_liberties(gb, x, y, color);
    let sa = settled(a, x, y, color);
    let sb = settled(b, x, y, color);
    assert forall|c: (usize, usize)| #[trigger] within(sa.len(), c) implies at(sa, c).state() == at(
        sb,
        c,
    ).state() && at(sa, c).stones() == at(sb, c).stones() by {
        assert(at(ga, c).state() == at(gb, c).state());
        assert(at(ga, c).stones() == at(gb, c).stones());
    }
}

/// A sweep over the same neighbours keeps two sound grids akin and finds
/// the same stones without liberties.
pub proof fn lemma_akin_sweep(a: Grid, b: Grid, ns: Seq<(usize, usize)>, opp: usize)
    requires
        akin(a, b),
        sound(a),
        sound(b),
        forall|k: int| 0 <= k < ns.len() ==> within(a.len(), #[trigger] ns[k]),
    ensures
        akin(sweep_grid(a, ns, opp), sweep_grid(b, ns, opp)),
        sweep_dead(a, ns, opp) == sweep_dead(b, ns, opp),
    decreases ns.len(),
{
    if ns.len() > 0 {
        let rest = ns.drop_last();
        let n = ns.last();
        assert(within(a.len(), ns[ns.len() - 1]));
        assert forall|k: int| 0 <= k < rest.len() implies within(a.len(), #[trigger] rest[k]) by {
            assert(rest[k] == ns[k]);
        }
        lemma_akin_sweep(a, b, rest, opp);
        lemma_sweep_keeps(a, rest, opp);
        lemma_sweep_keeps(b, rest, opp);
        let ra = sweep_grid(a, rest, opp);
        let rb = sweep_grid(b, rest, opp);
        lemma_akin_with_liberties(ra, n.0, n.1, opp);
        lemma_akin_with_liberties(rb, n.0, n.1, opp);
        let wa = sweep_grid(a, ns, opp);
        let wb = sweep_grid(b, ns, opp);
        assert(akin(wa, wb)) by {
            assert forall|c: (usize, usize)| #[trigger] within(wa.len(), c) implies at(wa, c).state() == at(
                wb,
                c,
            ).state() && at(wa, c).stones() == at(wb, c).stones() by {
                assert(at(ra, c).state() == at(rb, c).state());
                assert(at(ra, c).stones() == at(rb, c).stones());
            }
        }
        assert(at(ra, n).state() == at(rb, n).state());
        assert(at(wa, n).state() == at(wb, n).state());
        assert(at(ra, n).state() == at(wa, n).state());
        if has_color(at(wa, n), opp) {
            lemma_recount(ra, n, opp);
            lemma_recount(rb, n, opp);
            lemma_akin_checks(ra, rb, n, opp);
        }
        assert(doomed(wa, n, opp) == doomed(wb, n, opp));
    }
}

/// Taking the same stones off keeps two grids akin.
pub proof fn lemma_akin_cleared(a: Grid, b: Grid, dead: Seq<(usize, usize)>, n: int)
    requires
        akin(a, b),
    ensures
        akin(cleared(a, dead, n), cleared(b, dead, n)),
{
    let ca = cleared(a, dead, n);
    let cb = cleared(b, dead, n);
    assert forall|c: (usize, usize)| #[trigger] within(ca.len(), c) implies at(ca, c).state() == at(
        cb,
        c,
    ).state() && at(ca, c).stones() == at(cb, c).stones() by {
        assert(at(a, c).state() == at(b, c).state());
    }
}

/// Akin grids show the same stones.
pub proof fn lemma_akin_stones(a: Grid, b: Grid)
    requires
        akin(a, b),
    ensures
        same_stones(a, b),
        forall|keys: [[[u64; 3]; COLS]; ROWS]| #[trigger]
            position_hash(keys, a) == position_hash(keys, b),
{
    assert forall|k: int| 0 <= k < CELLS && within(a.len(), cell_at(k)) implies (#[trigger] at(
        a,
        cell_at(k),
    )).state() == at(b, cell_at(k)).state() by {}
    assert forall|keys: [[[u64; 3]; COLS]; ROWS]| #[trigger]
        position_hash(keys, a) == position_hash(keys, b) by {
        lemma_hash_of_stones(keys, a, b, CELLS as nat);
    }
}

/// The same move on two akin sound grids captures the same stones and leaves
/// akin grids.
pub proof fn lemma_akin_moved(a: Grid, b: Grid, x: usize, y: usize, color: usize)
    requires
        akin(a, b),
        sound(a),
        sound(b),
        x < a.len(),
        y < a.len(),
        color == BLACK || color == WHITE,
    ensures
        akin(moved(a, x, y, color), moved(b, x, y, color)),
        captured(a, x, y, color) == captured(b, x, y, color),
{
    lemma_akin_settled(a, b, x, y, color);
    lemma_settled_sound(a, x, y, color);
    lemma_settled_sound(b, x, y, color);
    lemma_neighbours_on_board(a.len(), x, y);
    lemma_akin_sweep(
        settled(a, x, y, color),
        settled(b, x, y, color),
        neighbours(a.len(), x, y),
        opponent(color),
    );
    let dead = found_dead(a, x, y, color);
    lemma_akin_cleared(
        sweep_grid(settled(a, x, y, color), neighbours(a.len(), x, y), opponent(color)),
        sweep_grid(settled(b, x, y, color), neighbours(a.len(), x, y), opponent(color)),
        dead,
        dead.len() as int,
    );
}

/// Akin sound grids allow the same moves.
pub proof fn lemma_akin_legal(a: Grid, b: Grid, z: ZobristView, x: usize, y: usize, color: usize)
    requires
        akin(a, b),
        sound(a),
        sound(b),
    ensures
        legal(a, z, x, y, color) == legal(b, z, x, y, color),
        color == BLACK || color == WHITE ==> verdict(a, z, x, y, color) == verdict(b, z, x, y, color),
{
    if x < a.len() && y < a.len() && (color == BLACK || color == WHITE) {
        assert(within(a.len(), (x, y)));
        assert(at(a, (x, y)).state() == at(b, (x, y)).state());
        lemma_akin_alive(a, b, x, y, color);
        lemma_akin_moved(a, b, x, y, color);
        lemma_akin_stones(moved(a, x, y, color), moved(b, x, y, color));
    }
}

/// The stones of the groups recorded at `ns` that hold the colour `opp` and
/// have, counted afresh on `g`, no liberty: for each neighbour in turn, the
/// stones that it records.
pub open spec fn dead_groups(g: Grid, ns: Seq<(usize, usize)>, opp: usize) -> Seq<(usize, usize)>
    decreases ns.len(),
{
    if ns.len() == 0 {
        Seq::empty()
    } else {
        dead_groups(g, ns.drop_last(), opp) + if has_color(at(g, ns.last()), opp) && fresh_liberties(
            g,
            ns.last(),
        ) == 0 {
            at(g, ns.last()).stones()
        } else {
            Seq::empty()
        }
    }
}

/// On a sound grid, the stones that a sweep finds without liberties are the
/// stones of the neighbouring groups of the opposing colour that have no
/// liberty on that grid: what an earlier step of the sweep wrote does not
/// count.
pub proof fn law_sweep_finds_dead_groups(g: Grid, ns: Seq<(usize, usize)>, opp: usize)
    requires
        sound(g),
        forall|k: int| 0 <= k < ns.len() ==> within(g.len(), #[trigger] ns[k]),
    ensures
        sweep_dead(g, ns, opp) == dead_groups(g, ns, opp),
    decreases ns.len(),
{
    if ns.len() > 0 {
        let rest = ns.drop_last();
        let n = ns.last();
        assert(within(g.len(), ns[ns.len() - 1]));
        assert forall|k: int| 0 <= k < rest.len() implies within(g.len(), #[trigger] rest[k]) by {
            assert(rest[k] == ns[k]);
        }
        law_sweep_finds_dead_groups(g, rest, opp);
        lemma_sweep_keeps(g, rest, opp);
        lemma_sweep_keeps(g, ns, opp);
        let before = sweep_grid(g, rest, opp);
        let after = sweep_grid(g, ns, opp);
        assert(akin(g, before)) by {
            assert forall|c: (usize, usize)| #[trigger] within(g.len(), c) implies at(g, c).state() == at(
                before,
                c,
            ).state() && at(g, c).stones() == at(before, c).stones() by {
                assert(at(before, c).stones() == at(g, c).stones());
            }
        }
        assert(at(after, n).state() == at(g, n).state());
        assert(at(after, n).stones() == at(g, n).stones());
        if has_color(at(g, n), opp) {
            lemma_recount(before, n, opp);
            lemma_akin_checks(g, before, n, opp);
        }
    }
}

/// Whether the neighbour `n` holds a stone of the colour `opp` whose group
/// has, counted afresh on `g`, no liberty, and records `c` as one of its stones.
pub open spec fn dies_with(g: Grid, n: (usize, usize), opp: usize, c: (usize, usize)) -> bool {
    has_color(at(g, n), opp) && fresh_liberties(g, n) == 0 && at(g, n).stones().contains(c)
}

/// The list of dead groups holds a stone exactly if the stone dies with one
/// of the neighbours.
pub proof fn lemma_dead_groups_members(
    g: Grid,
    ns: Seq<(usize, usize)>,
    opp: usize,
    c: (usize, usize),
)
    ensures
        dead_groups(g, ns, opp).contains(c) <==> exists|k: int|
            0 <= k < ns.len() && dies_with(g, #[trigger] ns[k], opp, c),
    decreases ns.len(),
{
    if ns.len() > 0 {
        let rest = ns.drop_last();
        let n = ns.last();
        lemma_dead_groups_members(g, rest, opp, c);
        let before = dead_groups(g, rest, opp);
        let here = if has_color(at(g, n), opp) && fresh_liberties(g, n) == 0 {
            at(g, n).stones()
        } else {
            Seq::empty()
        };
        let all = dead_groups(g, ns, opp);
        assert(all == before + here);
        if all.contains(c) {
            let i = choose|i: int| 0 <= i < all.len() && all[i] == c;
            if i < before.len() {
                assert(before[i] == c);
                let k = choose|k: int| 0 <= k < rest.len() && dies_with(g, #[trigger] rest[k], opp, c);
                assert(ns[k] == rest[k]);
                assert(dies_with(g, ns[k], opp, c));
            } else {
                assert(here[i - before.len()] == c);
                assert(dies_with(g, ns[ns.len() - 1], opp, c));
            }
        }
        if exists|k: int| 0 <= k < ns.len() && dies_with(g, #[trigger] ns[k], opp, c) {
            let k = choose|k: int| 0 <= k < ns.len() && dies_with(g, #[trigger] ns[k], opp, c);
            if k < rest.len() {
                assert(rest[k] == ns[k]);
                assert(dies_with(g, rest[k], opp, c));
                let i = choose|i: int| 0 <= i < before.len() && before[i] == c;
                assert(all[i] == c);
            } else {
                let i = choose|i: int| 0 <= i < here.len() && here[i] == c;
                assert(all[before.len() + i] == c);
            }
        }
    }
}

/// On a sound grid, a move of a real colour takes off exactly the stones of
/// the opposing groups next to the new stone that are left without
/// liberties once the stone stands, and lists each of them once: a stone is
/// among the captured exactly if a neighbour of the new stone holds an
/// opposing stone whose group has no liberty and records that stone.
pub proof fn law_captures_are_dead_groups(
    g: Grid,
    x: usize,
    y: usize,
    color: usize,
    c: (usize, usize),
)
    requires
        sound(g),
        x < g.len(),
        y < g.len(),
        color == BLACK || color == WHITE,
    ensures
        captured(g, x, y, color).no_duplicates(),
        captured(g, x, y, color).contains(c) <==> exists|k: int|
            0 <= k < neighbours(g.len(), x, y).len() && dies_with(
                settled(g, x, y, color),
                #[trigger] neighbours(g.len(), x, y)[k],
                opponent(color),
                c,
            ),
{
    lemma_settled_sound(g, x, y, color);
    lemma_neighbours_on_board(g.len(), x, y);
    law_sweep_finds_dead_groups(settled(g, x, y, color), neighbours(g.len(), x, y), opponent(color));
    lemma_dead_groups_members(settled(g, x, y, color), neighbours(g.len(), x, y), opponent(color), c);
    crate::capture::lemma_moved_sound(g, x, y, color);
}

} // verus!
