//! Going back and forth in the history: what undo and redo do to a game
//! that moves were applied to, and how their reports follow the board.

use vstd::prelude::*;
use crate::cells::{lemma_ordered, ordered, within};
use crate::game::{node_ok, GameView};
use crate::go::{at, is_grid, Grid, BLACK, EMPTY, WHITE};
use crate::report::{added_list, appeared, removed_list, vanished};
use crate::session::{lemma_applied_wf, lemma_stepped_wf, SessionView};

verus! {

/// The game after the first `n` of the moves were applied in turn.
pub open spec fn applied_all(s: SessionView, moves: Seq<(usize, usize, usize)>, n: int) -> SessionView
    decreases n,
{
    if n <= 0 {
        s
    } else {
        applied_all(s, moves, n - 1).applied(moves[n - 1].0, moves[n - 1].1, moves[n - 1].2)
    }
}

/// The game after `n` undos.
pub open spec fn undone_times(s: SessionView, n: int) -> SessionView
    decreases n,
{
    if n <= 0 {
        s
    } else {
        undone_times(s, n - 1).undone()
    }
}

/// The game after `n` redos.
pub open spec fn redone_times(s: SessionView, n: int) -> SessionView
    decreases n,
{
    if n <= 0 {
        s
    } else {
        redone_times(s, n - 1).redone()
    }
}

/// Whether every move lies on a board of `n` rows and `n` columns and has
/// a real colour.
pub open spec fn playable(moves: Seq<(usize, usize, usize)>, n: nat) -> bool {
    forall|k: int|
        0 <= k < moves.len() ==> (#[trigger] moves[k]).0 < n && moves[k].1 < n && (moves[k].2
            == BLACK || moves[k].2 == WHITE)
}

/// The nodes that `n` moves applied to a tree of `len` nodes with the
/// cursor on `start` lead through: the old cursor, then the new nodes.
pub open spec fn trail_of(start: usize, len: nat, n: int) -> Seq<usize> {
    Seq::new((n + 1) as nat, |i: int| if i == 0 { start } else { (len + i - 1) as usize })
}

/// Whether the nodes of `path` are moves of the tree, each the last child
/// of the one before.
pub open spec fn is_trail(t: GameView, path: Seq<usize>) -> bool {
    &&& path.len() >= 1
    &&& forall|i: int|
        0 <= i < path.len() ==> (#[trigger] path[i]) < t.nodes.len() && t.nodes[path[i] as int] is Move
    &&& forall|i: int|
        0 <= i < path.len() - 1 ==> {
            &&& t.nodes[(#[trigger] path[i]) as int].children().len() > 0
            &&& t.nodes[path[i] as int].children().last() == path[i + 1]
            &&& t.nodes[path[i + 1] as int].parent() == Some(path[i])
        }
}

/// Moves applied in turn leave a well-formed game whose cursor stands at
/// the end of a trail from the old cursor, and whose board is the board of
/// the cursor once a move was applied.
pub proof fn lemma_applied_all(s: SessionView, moves: Seq<(usize, usize, usize)>, n: int)
    requires
        s.wf(),
        playable(moves, s.size()),
        0 <= n <= moves.len(),
        s.tree.nodes.len() + moves.len() <= usize::MAX,
    ensures
        applied_all(s, moves, n).wf(),
        applied_all(s, moves, n).size() == s.size(),
        applied_all(s, moves, n).tree.nodes.len() == s.tree.nodes.len() + n,
        applied_all(s, moves, n).tree.curr == trail_of(s.tree.curr, s.tree.nodes.len(), n)[n],
        is_trail(applied_all(s, moves, n).tree, trail_of(s.tree.curr, s.tree.nodes.len(), n)),
        n > 0 ==> applied_all(s, moves, n).board == applied_all(s, moves, n).tree.nodes[applied_all(
            s,
            moves,
            n,
        ).tree.curr as int].board(),
    decreases n,
{
    let len = s.tree.nodes.len();
    if n > 0 {
        lemma_applied_all(s, moves, n - 1);
        let p = applied_all(s, moves, n - 1);
        let m = moves[n - 1];
        let e = applied_all(s, moves, n);
        assert(e == p.applied(m.0, m.1, m.2));
        lemma_applied_wf(p, m.0, m.1, m.2);
        let before = trail_of(s.tree.curr, len, n - 1);
        let path = trail_of(s.tree.curr, len, n);
        assert(e.tree.curr == path[n]);
        assert forall|i: int| 0 <= i < path.len() implies (#[trigger] path[i]) < e.tree.nodes.len()
            && e.tree.nodes[path[i] as int] is Move by {
            if i < n {
                assert(path[i] == before[i]);
                assert(p.tree.nodes[before[i] as int] is Move);
            }
        }
        assert forall|i: int| 0 <= i < path.len() - 1 implies {
            &&& e.tree.nodes[(#[trigger] path[i]) as int].children().len() > 0
            &&& e.tree.nodes[path[i] as int].children().last() == path[i + 1]
            &&& e.tree.nodes[path[i + 1] as int].parent() == Some(path[i])
        } by {
            assert(path[i] == before[i]);
            assert(p.tree.nodes[before[i] as int] is Move);
            if i < n - 1 {
                assert(path[i + 1] == before[i + 1]);
                assert(p.tree.nodes[before[i] as int].children().last() == before[i + 1]);
                assert(before[i] != p.tree.curr);
                assert(before[i + 1] < p.tree.nodes.len());
                if before[i + 1] == p.tree.curr {
                    assert(e.tree.nodes[path[i + 1] as int].parent() == p.tree.nodes[before[i
                        + 1] as int].parent());
                }
            } else {
                assert(before[i] == p.tree.curr);
                let kids = p.tree.nodes[p.tree.curr as int].children();
                assert(e.tree.nodes[path[i] as int].children() == kids.push(p.tree.nodes.len() as usize));
                assert(kids.push(p.tree.nodes.len() as usize).last() == p.tree.nodes.len() as usize);
            }
        }
    } else {
        let path = trail_of(s.tree.curr, len, 0);
        assert(path[0] == s.tree.curr);
    }
}

/// Where an undo or a redo leads lies in the tree.
pub proof fn lemma_goals_in_range(s: SessionView)
    requires
        s.wf(),
    ensures
        s.undo_goal() is Some ==> s.undo_goal()->0 < s.tree.nodes.len(),
        s.redo_goal() is Some ==> s.redo_goal()->0 < s.tree.nodes.len(),
        s.undone().wf(),
        s.redone().wf(),
{
    let at = s.tree.curr as int;
    assert(node_ok(s.tree.nodes, at));
    if s.undo_goal() is Some {
        lemma_stepped_wf(s, s.undo_goal()->0);
    }
    if s.redo_goal() is Some {
        let kids = s.tree.nodes[at].children();
        assert(kids[kids.len() - 1] < s.tree.nodes.len());
        lemma_stepped_wf(s, s.redo_goal()->0);
    }
}

/// Undos from the end of a trail lead back along it.
pub proof fn lemma_undo_along(s: SessionView, path: Seq<usize>, k: int, j: int)
    requires
        is_trail(s.tree, path),
        0 <= j <= k < path.len(),
        s.tree.curr == path[k],
    ensures
        undone_times(s, j).tree == (GameView { curr: path[k - j], ..s.tree }),
        undone_times(s, j).hash == s.hash,
        undone_times(s, j).board == if j > 0 {
            s.tree.nodes[path[k - j] as int].board()
        } else {
            s.board
        },
    decreases j,
{
    if j > 0 {
        lemma_undo_along(s, path, k, j - 1);
        let u = undone_times(s, j - 1);
        assert(u.tree.curr == path[k - j + 1]);
        assert(s.tree.nodes[path[k - j] as int] is Move);
        assert(s.tree.nodes[path[k - j + 1] as int].parent() == Some(path[k - j]));
        assert(s.tree.nodes[path[k - j + 1] as int] is Move);
        assert(u.undo_goal() == Some(path[k - j]));
    }
}

/// Redos from the start of a trail lead forth along it.
pub proof fn lemma_redo_along(s: SessionView, path: Seq<usize>, j: int)
    requires
        is_trail(s.tree, path),
        0 <= j < path.len(),
        s.tree.curr == path[0],
    ensures
        redone_times(s, j).tree == (GameView { curr: path[j], ..s.tree }),
        redone_times(s, j).hash == s.hash,
        redone_times(s, j).board == if j > 0 {
            s.tree.nodes[path[j] as int].board()
        } else {
            s.board
        },
    decreases j,
{
    if j > 0 {
        lemma_redo_along(s, path, j - 1);
        let u = redone_times(s, j - 1);
        assert(u.tree.curr == path[j - 1]);
        assert(s.tree.nodes[path[j - 1] as int].children().last() == path[j]);
        assert(s.tree.nodes[path[j] as int] is Move);
        assert(u.redo_goal() == Some(path[j]));
    }
}

/// For any moves applied in turn to a game, as many undos as there were
/// moves, followed by as many redos, bring back the game as it was after
/// the moves: the same board, the same tree with the same cursor, the same
/// hasher.
pub proof fn law_undo_redo_round_trip(s: SessionView, moves: Seq<(usize, usize, usize)>)
    requires
        s.wf(),
        playable(moves, s.size()),
        s.tree.nodes.len() + moves.len() <= usize::MAX,
    ensures
        redone_times(
            undone_times(applied_all(s, moves, moves.len() as int), moves.len() as int),
            moves.len() as int,
        ) == applied_all(s, moves, moves.len() as int),
{
    let n = moves.len() as int;
    let e = applied_all(s, moves, n);
    lemma_applied_all(s, moves, n);
    let path = trail_of(s.tree.curr, s.tree.nodes.len(), n);
    if n > 0 {
        lemma_undo_along(e, path, n, n);
        let u = undone_times(e, n);
        assert(is_trail(u.tree, path)) by {
            assert(u.tree.nodes == e.tree.nodes);
        }
        lemma_redo_along(u, path, n);
        let r = redone_times(u, n);
        assert(r.tree == e.tree);
        assert(r.board == e.board);
    }
}

/// What a display shows of a grid: the state of each point.
pub open spec fn shown(g: Grid) -> Seq<Seq<usize>> {
    Seq::new(g.len(), |i: int| Seq::new(g.len(), |j: int| g[i][j].state()))
}

/// Whether a report of added stones names the point `c`.
pub open spec fn names(added: Seq<(usize, usize, usize)>, c: (usize, usize)) -> bool {
    exists|k: int| 0 <= k < added.len() && (#[trigger] added[k]).0 == c.0 && added[k].1 == c.1
}

/// The colour that a report of added stones gives the point `c`.
pub open spec fn named_color(added: Seq<(usize, usize, usize)>, c: (usize, usize)) -> usize {
    added[choose|k: int| 0 <= k < added.len() && (#[trigger] added[k]).0 == c.0 && added[k].1 == c.1].2
}

/// A display after a report was applied to it: the removed points are
/// empty, the added points hold the reported colour, all others are as
/// they were.
pub open spec fn patched(
    view: Seq<Seq<usize>>,
    added: Seq<(usize, usize, usize)>,
    removed: Seq<(usize, usize)>,
) -> Seq<Seq<usize>> {
    Seq::new(
        view.len(),
        |i: int|
            Seq::new(
                view.len(),
                |j: int|
                    if removed.contains((i as usize, j as usize)) {
                        EMPTY
                    } else if names(added, (i as usize, j as usize)) {
                        named_color(added, (i as usize, j as usize))
                    } else {
                        view[i][j]
                    },
            ),
    )
}

/// A display that shows the board `live` and applies the report of the
/// change to `target`, a board of the same size, shows the board `target`.
pub proof fn law_report_patches(target: Grid, live: Grid)
    requires
        is_grid(target),
        is_grid(live),
        target.len() == live.len(),
    ensures
        patched(shown(live), added_list(target, live), removed_list(target, live)) == shown(target),
{
    let added = added_list(target, live);
    let removed = removed_list(target, live);
    let cells = ordered(appeared(target, live));
    lemma_ordered(appeared(target, live));
    lemma_ordered(vanished(target, live));
    assert forall|i: int, j: int| 0 <= i < target.len() && 0 <= j < target.len() implies patched(
        shown(live),
        added,
        removed,
    )[i][j] == shown(target)[i][j] by {
        let c = (i as usize, j as usize);
        assert(within(target.len(), c));
        if names(added, c) {
            let k = choose|k: int|
                0 <= k < added.len() && (#[trigger] added[k]).0 == c.0 && added[k].1 == c.1;
            assert(added[k] == (cells[k].0, cells[k].1, at(target, cells[k]).state()));
            assert(cells[k] == c);
            assert(cells.contains(c));
        }
        if cells.contains(c) {
            let k = choose|k: int| 0 <= k < cells.len() && cells[k] == c;
            assert(added[k].0 == c.0 && added[k].1 == c.1);
            assert(names(added, c));
        }
        if removed.contains(c) {
            assert(vanished(target, live).contains(c));
        }
    }
    assert(patched(shown(live), added, removed) =~~= shown(target));
}

/// A display after the reports of `n` undos were applied to it in turn.
pub open spec fn after_undos(s: SessionView, n: int, view: Seq<Seq<usize>>) -> Seq<Seq<usize>>
    decreases n,
{
    if n <= 0 {
        view
    } else {
        let before = undone_times(s, n - 1);
        match before.undo_goal() {
            Some(p) => patched(
                after_undos(s, n - 1, view),
                before.step_added(p),
                before.step_removed(p),
            ),
            None => after_undos(s, n - 1, view),
        }
    }
}

/// A display after the reports of `n` redos were applied to it in turn.
pub open spec fn after_redos(s: SessionView, n: int, view: Seq<Seq<usize>>) -> Seq<Seq<usize>>
    decreases n,
{
    if n <= 0 {
        view
    } else {
        let before = redone_times(s, n - 1);
        match before.redo_goal() {
            Some(c) => patched(
                after_redos(s, n - 1, view),
                before.step_added(c),
                before.step_removed(c),
            ),
            None => after_redos(s, n - 1, view),
        }
    }
}

/// A step's report brings a display of the board before the step to the
/// board after it.
pub proof fn lemma_step_report(s: SessionView, to: usize)
    requires
        s.wf(),
        to < s.tree.nodes.len(),
    ensures
        patched(shown(s.board), s.step_added(to), s.step_removed(to)) == shown(s.stepped(to).board),
{
    assert(node_ok(s.tree.nodes, to as int));
    if s.tree.nodes[to as int] is Move {
        law_report_patches(s.tree.nodes[to as int].board(), s.board);
    } else {
        let empty_added = Seq::<(usize, usize, usize)>::empty();
        let empty_removed = Seq::<(usize, usize)>::empty();
        assert(patched(shown(s.board), empty_added, empty_removed) =~~= shown(s.board));
    }
}

/// A display that shows the board and applies the report of every undo
/// goes on showing the board.
pub proof fn law_undo_reports_follow(s: SessionView, n: int)
    requires
        s.wf(),
    ensures
        undone_times(s, n).wf(),
        after_undos(s, n, shown(s.board)) == shown(undone_times(s, n).board),
    decreases n,
{
    if n > 0 {
        law_undo_reports_follow(s, n - 1);
        let before = undone_times(s, n - 1);
        lemma_goals_in_range(before);
        if before.undo_goal() is Some {
            lemma_step_report(before, before.undo_goal()->0);
        }
    }
}

/// A display that shows the board and applies the report of every redo
/// goes on showing the board.
pub proof fn law_redo_reports_follow(s: SessionView, n: int)
    requires
        s.wf(),
    ensures
        redone_times(s, n).wf(),
        after_redos(s, n, shown(s.board)) == shown(redone_times(s, n).board),
    decreases n,
{
    if n > 0 {
        law_redo_reports_follow(s, n - 1);
        let before = redone_times(s, n - 1);
        lemma_goals_in_range(before);
        if before.redo_goal() is Some {
            lemma_step_report(before, before.redo_goal()->0);
        }
    }
}

/// For any moves applied in turn to a game: a display that shows the board
/// after the moves and applies what the undos and then the redos report as
/// added and removed shows, in the end, what it showed at first.
pub proof fn law_round_trip_reports(s: SessionView, moves: Seq<(usize, usize, usize)>)
    requires
        s.wf(),
        playable(moves, s.size()),
        s.tree.nodes.len() + moves.len() <= usize::MAX,
    ensures
        ({
            let n = moves.len() as int;
            let e = applied_all(s, moves, n);
            after_redos(undone_times(e, n), n, after_undos(e, n, shown(e.board))) == shown(e.board)
        }),
{
    let n = moves.len() as int;
    let e = applied_all(s, moves, n);
    lemma_applied_all(s, moves, n);
    law_undo_redo_round_trip(s, moves);
    law_undo_reports_follow(e, n);
    law_redo_reports_follow(undone_times(e, n), n);
}

} // verus!
