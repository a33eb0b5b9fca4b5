//! Reading back what was written: the record of a game without variations
//! holds the game's moves, and playing them again leads to the same board.

use vstd::prelude::*;
use crate::akin::legal;
use crate::capture::moved;
use crate::cells::{valid_size, within, COLS, ROWS};
use crate::game::{node_ok, GameView};
use crate::go::{GoError, BLACK, WHITE};
use crate::session::SessionView;
use crate::sgf::{
    all_parens, as_list, balanced, child_text, depth, find, header, is_header, is_letter,
    is_move_token, is_paren, lemma_find, properties,
    letter, move_text, moves_from, node_text, parse, sgf_text, tag, token_move,
};

verus! {

/// Whether the tree is one line of moves without variations: every node is
/// a move, and each but the last has the next node as its only child.
pub open spec fn is_line(t: GameView) -> bool {
    forall|i: int|
        0 <= i < t.nodes.len() ==> (#[trigger] t.nodes[i]) is Move && t.nodes[i].children() == if i + 1
            < t.nodes.len() {
            seq![(i + 1) as usize]
        } else {
            Seq::empty()
        }
}

/// Whether every move of the tree has a real colour.
pub open spec fn real_colors(t: GameView) -> bool {
    forall|i: int|
        1 <= i < t.nodes.len() ==> (#[trigger] t.nodes[i]).color() == BLACK || t.nodes[i].color()
            == WHITE
}

/// The moves of a line, from the first move on.
pub open spec fn line_moves(t: GameView) -> Seq<(usize, usize, usize)> {
    Seq::new(
        (t.nodes.len() - 1) as nat,
        |k: int| (t.nodes[k + 1].piece().0, t.nodes[k + 1].piece().1, t.nodes[k + 1].color()),
    )
}

/// Whether a text holds no parenthesis.
pub open spec fn no_parens(s: Seq<char>) -> bool {
    forall|k: int| 0 <= k < s.len() ==> #[trigger] s[k] != '(' && s[k] != ')'
}

/// A text without parentheses is balanced.
pub proof fn lemma_no_parens_balanced(s: Seq<char>, n: int)
    requires
        no_parens(s),
        0 <= n <= s.len(),
    ensures
        depth(s, n) == 0,
    decreases n,
{
    if n > 0 {
        lemma_no_parens_balanced(s, n - 1);
        assert(s[n - 1] != '(' && s[n - 1] != ')');
    }
}

/// The text of a move of a line: the move itself, then the text of the next
/// move or, after the last, a semicolon. It holds no parenthesis and starts
/// with a semicolon.
pub proof fn lemma_line_text(t: GameView, i: int)
    requires
        t.wf(),
        is_line(t),
        1 <= i < t.nodes.len(),
    ensures
        node_text(t.nodes, i, false) == move_text(t.nodes[i].color(), t.nodes[i].piece()) + if i + 1
            < t.nodes.len() {
            node_text(t.nodes, i + 1, false)
        } else {
            seq![';']
        },
        no_parens(node_text(t.nodes, i, false)),
        node_text(t.nodes, i, false).len() >= 7,
        node_text(t.nodes, i, false)[0] == ';',
    decreases t.nodes.len() - i,
{
    let n = t.nodes[i];
    assert(n is Move);
    assert(node_ok(t.nodes, i));
    let mt = move_text(n.color(), n.piece());
    let tail = if i + 1 < t.nodes.len() {
        node_text(t.nodes, i + 1, false)
    } else {
        seq![';']
    };
    if i + 1 < t.nodes.len() {
        lemma_line_text(t, i + 1);
        assert(n.children() == seq![(i + 1) as usize]);
        assert(n.children()[0] == (i + 1) as usize);
        assert(child_text(t.nodes, i, 0) == node_text(t.nodes, i + 1, false));
    } else {
        assert(n.children().len() == 0);
    }
    assert(node_text(t.nodes, i, false) == mt + tail);
    lemma_letters(n.piece().0, t.size());
    lemma_letters(n.piece().1, t.size());
    assert forall|k: int| 0 <= k < (mt + tail).len() implies #[trigger] (mt + tail)[k] != '(' && (mt
        + tail)[k] != ')' by {
        if k < 6 {
            assert((mt + tail)[k] == mt[k]);
        } else {
            assert((mt + tail)[k] == tail[k - 6]);
        }
    }
    assert((mt + tail)[0] == mt[0]);
}

/// The letter of a row or a column of a board is a letter of the board,
/// stands for that row or column, and is no bracket, semicolon or parenthesis.
pub proof fn lemma_letters(k: usize, n: nat)
    requires
        k < n,
        valid_size(n),
    ensures
        is_letter(letter(k), n),
        (letter(k) as int - 97) as usize == k,
        letter(k) != ']',
        letter(k) != ';',
        letter(k) != '(',
        letter(k) != ')',
{
}

/// The text of a move without its semicolon is a token that stands for the move.
pub proof fn lemma_move_token(color: usize, piece: (usize, usize), n: nat)
    requires
        within(n, piece),
        valid_size(n),
        color == BLACK || color == WHITE,
    ensures
        token_move(move_text(color, piece).subrange(1, 6), n, false) == Ok::<
            Option<(usize, usize, usize)>,
            GoError,
        >(Some((piece.0, piece.1, color))),
        forall|k: int| 0 <= k < 5 ==> #[trigger] move_text(color, piece).subrange(1, 6)[k] != ';',
{
    let tok = move_text(color, piece).subrange(1, 6);
    lemma_letters(piece.0, n);
    lemma_letters(piece.1, n);
    assert(tok.len() == 5);
    assert(tok[0] == tag(color));
    assert(tok[1] == '[');
    assert(tok[2] == letter(piece.0));
    assert(tok[3] == letter(piece.1));
    assert(tok[4] == ']');
    assert(is_move_token(tok));
    assert(!is_paren(tok[0]));
    assert(!all_parens(tok, 0));
    assert(all_parens(tok, 5));
    lemma_find(tok, 2, ']');
    assert(find(tok, 2, ']') == 4);
}

/// Reading a text from the place where the text of a move of a line
/// starts, behind its semicolon, yields the moves of the line from that
/// move on.
pub proof fn lemma_read_line(t: GameView, body: Seq<char>, p: int, i: int)
    requires
        t.wf(),
        is_line(t),
        real_colors(t),
        1 <= i < t.nodes.len(),
        1 < p <= body.len(),
        body.subrange(p, body.len() as int) == node_text(t.nodes, i, false).subrange(
            1,
            node_text(t.nodes, i, false).len() as int,
        ),
    ensures
        moves_from(body, p, t.size()) == Ok::<Seq<(usize, usize, usize)>, GoError>(
            line_moves(t).subrange(i - 1, t.nodes.len() - 1),
        ),
    decreases t.nodes.len() - i,
{
    let n = t.nodes[i];
    let txt = node_text(t.nodes, i, false);
    let rest = txt.subrange(1, txt.len() as int);
    let mt = move_text(n.color(), n.piece());
    let m = (n.piece().0, n.piece().1, n.color());
    lemma_line_text(t, i);
    assert(node_ok(t.nodes, i));
    assert(node_ok(t.nodes, 0));
    lemma_move_token(n.color(), n.piece(), t.size());
    let tail = if i + 1 < t.nodes.len() {
        node_text(t.nodes, i + 1, false)
    } else {
        seq![';']
    };
    if i + 1 < t.nodes.len() {
        lemma_line_text(t, i + 1);
    }
    assert(txt == mt + tail);
    assert(tail[0] == ';');
    assert(body.len() - p == rest.len());
    assert forall|k: int| 0 <= k < rest.len() implies body[p + k] == #[trigger] rest[k] by {
        assert(body.subrange(p, body.len() as int)[k] == body[p + k]);
    }
    let tok = mt.subrange(1, 6);
    assert forall|k: int| 0 <= k < 5 implies body[p + k] == #[trigger] tok[k] by {
        assert(rest[k] == txt[k + 1]);
        assert(txt[k + 1] == mt[k + 1]);
    }
    assert(body[p + 5] == ';') by {
        assert(rest[5] == txt[6]);
        assert(txt[6] == tail[0]);
    }
    lemma_find(body, p, ';');
    let end = find(body, p, ';');
    assert(end == p + 5) by {
        if end < p + 5 {
            assert(body[end] == tok[end - p]);
        }
    }
    assert(body.subrange(p, end) =~= tok);
    let later = line_moves(t).subrange(i, t.nodes.len() - 1);
    assert(seq![m] + later =~= line_moves(t).subrange(i - 1, t.nodes.len() - 1));
    if i + 1 < t.nodes.len() {
        let next = node_text(t.nodes, i + 1, false);
        assert(body.subrange(p + 6, body.len() as int) =~= next.subrange(1, next.len() as int)) by {
            assert forall|k: int| 0 <= k < next.len() - 1 implies body.subrange(
                p + 6,
                body.len() as int,
            )[k] == next.subrange(1, next.len() as int)[k] by {
                assert(body[p + 6 + k] == rest[6 + k]);
                assert(rest[6 + k] == txt[7 + k]);
                assert(txt[7 + k] == tail[k + 1]);
            }
        }
        lemma_read_line(t, body, p + 6, i + 1);
    } else {
        assert(body.len() == p + 6);
        lemma_find(body, p + 6, ';');
        assert(body.subrange(p + 6, p + 6) =~= Seq::<char>::empty());
        assert(all_parens(Seq::<char>::empty(), 0));
        assert(moves_from(body, p + 6, t.size()) == Ok::<Seq<(usize, usize, usize)>, GoError>(
            as_list(None),
        ));
        assert(later =~= Seq::<(usize, usize, usize)>::empty());
        assert(as_list(None) =~= later);
    }
}

/// The record of a line of moves of real colours, read back for a board of
/// the game's size, yields the moves of the line.
pub proof fn law_parse_of_text(t: GameView)
    requires
        t.wf(),
        is_line(t),
        real_colors(t),
    ensures
        parse(sgf_text(t), t.size()) == Ok::<Seq<(usize, usize, usize)>, GoError>(line_moves(t)),
{
    let n = t.size();
    let text = sgf_text(t);
    let root = node_text(t.nodes, 0, true);
    let head = header(n);
    assert(node_ok(t.nodes, 0));
    assert(t.nodes[0] is Move);
    let first = if t.nodes.len() > 1 {
        node_text(t.nodes, 1, false)
    } else {
        Seq::empty()
    };
    if t.nodes.len() > 1 {
        lemma_line_text(t, 1);
        assert(t.nodes[0].children() == seq![1usize]);
        assert(t.nodes[0].children()[0] == 1usize);
        assert(child_text(t.nodes, 0, 0) == first);
        assert(root =~= first);
    } else {
        assert(t.nodes[0].children().len() == 0);
        assert(root =~= first);
    }
    assert(text == head + first + seq![')']);
    let hl = head.len() as int;
    assert(hl == 17 || hl == 18);
    assert(head[0] == '(');
    assert(head[1] == ';');
    assert(head[2] == 'F');
    assert forall|k: int| 2 <= k < hl implies #[trigger] head[k] != ';' && head[k] != '(' && head[k]
        != ')' by {}
    let body = text.subrange(1, text.len() - 1);
    assert(text[0] == head[0]);
    assert(text.last() == ')');
    assert(body.len() == hl - 1 + first.len());
    assert forall|k: int| 0 <= k < hl - 1 implies #[trigger] body[k] == head[k + 1] by {
        assert(body[k] == text[k + 1]);
    }
    assert forall|k: int| 0 <= k < first.len() implies #[trigger] body[hl - 1 + k] == first[k] by {
        assert(body[hl - 1 + k] == text[hl + k]);
    }
    assert(no_parens(body)) by {
        assert forall|k: int| 0 <= k < body.len() implies #[trigger] body[k] != '(' && body[k] != ')' by {
            if k < hl - 1 {
                assert(body[k] == head[k + 1]);
                if k == 0 {
                } else {
                    assert(head[k + 1] != '(' && head[k + 1] != ')');
                }
            } else {
                assert(body[hl - 1 + (k - (hl - 1))] == first[k - (hl - 1)]);
            }
        }
    }
    assert(balanced(body)) by {
        assert forall|m: int| 0 <= m <= body.len() implies depth(body, m) >= 0 by {
            lemma_no_parens_balanced(body, m);
        }
        lemma_no_parens_balanced(body, body.len() as int);
    }
    assert(body[0] == ';');
    assert(find(body, 0, ';') == 0);
    assert(body.subrange(0, 0) =~= Seq::<char>::empty());
    assert(all_parens(Seq::<char>::empty(), 0));
    lemma_find(body, 1, ';');
    let end = find(body, 1, ';');
    assert forall|k: int| 1 <= k < hl - 1 implies body[k] != ';' by {
        assert(body[k] == head[k + 1]);
        assert(head[k + 1] != ';');
    }
    assert(end >= hl - 1) by {
        if end < hl - 1 {
            assert(body[end] == ';');
        }
    }
    let props = body.subrange(1, end);
    assert(props[0] == body[1]);
    assert(body[1] == head[2]);
    assert(!is_paren(props[0]));
    assert(!all_parens(props, 0));
    assert(as_list(None) + line_moves(t) =~= line_moves(t));
    assert(end == hl - 1) by {
        if t.nodes.len() > 1 {
            assert(body[hl - 1 + 0] == first[0]);
        }
    }
    assert(props =~= properties(n)) by {
        assert forall|k: int| 0 <= k < props.len() implies props[k] == properties(n)[k] by {
            assert(props[k] == body[k + 1]);
            assert(body[k + 1] == head[k + 2]);
        }
    }
    assert(is_header(props, n)) by {
        assert(props.subrange(0, properties(n).len() as int) =~= props);
    }
    if t.nodes.len() > 1 {
        assert(body[hl - 1 + 0] == first[0]);
        assert(end == hl - 1);
        assert(body.subrange(hl, body.len() as int) =~= first.subrange(1, first.len() as int)) by {
            assert forall|k: int| 0 <= k < first.len() - 1 implies body.subrange(
                hl,
                body.len() as int,
            )[k] == first.subrange(1, first.len() as int)[k] by {
                assert(body[hl - 1 + (k + 1)] == first[k + 1]);
            }
        }
        lemma_read_line(t, body, hl, 1);
        assert(line_moves(t).subrange(0, t.nodes.len() - 1) =~= line_moves(t));
        assert(moves_from(body, 1, n) == Ok::<Seq<(usize, usize, usize)>, GoError>(line_moves(t)));
    } else {
        assert(end == hl - 1);
        assert(line_moves(t) =~= Seq::<(usize, usize, usize)>::empty());
        assert(moves_from(body, 1, n) == Ok::<Seq<(usize, usize, usize)>, GoError>(as_list(None)));
        assert(as_list(None) =~= line_moves(t));
    }
    assert(moves_from(body, 0, n) == Ok::<Seq<(usize, usize, usize)>, GoError>(line_moves(t)));
}

/// Whether the line is the trace of a game played under the given keys:
/// every node holds the board after its move, and every move was legal
/// when it was played.
pub open spec fn played_out(t: GameView, keys: [[[u64; 3]; COLS]; ROWS]) -> bool {
    forall|i: int|
        1 <= i < t.nodes.len() ==> {
            let before = SessionView::initial(keys, t.size()).replayed(line_moves(t), i - 1);
            &&& (#[trigger] t.nodes[i]).board() == moved(
                t.nodes[i - 1].board(),
                t.nodes[i].piece().0,
                t.nodes[i].piece().1,
                t.nodes[i].color(),
            )
            &&& legal(
                before.board,
                before.hash,
                t.nodes[i].piece().0,
                t.nodes[i].piece().1,
                t.nodes[i].color(),
            )
        }
}

/// Playing the moves of a played-out line again, from a new game, leads
/// through the boards of the line.
pub proof fn lemma_replay_line(t: GameView, keys: [[[u64; 3]; COLS]; ROWS], i: int)
    requires
        t.wf(),
        is_line(t),
        played_out(t, keys),
        0 <= i < t.nodes.len(),
    ensures
        SessionView::initial(keys, t.size()).replayed(line_moves(t), i).board == t.nodes[i].board(),
    decreases i,
{
    if i > 0 {
        lemma_replay_line(t, keys, i - 1);
        let before = SessionView::initial(keys, t.size()).replayed(line_moves(t), i - 1);
        let m = line_moves(t)[i - 1];
        assert(m == (t.nodes[i].piece().0, t.nodes[i].piece().1, t.nodes[i].color()));
        assert(t.nodes[i].board() == moved(t.nodes[i - 1].board(), m.0, m.1, m.2));
        assert(legal(before.board, before.hash, m.0, m.1, m.2));
    }
}

/// For a game without variations whose cursor stands on the last move,
/// whose live board is that move's board, and which is the trace of a game
/// played under the keys of the new hasher: the record of the game, read
/// into a new game of the same size, yields the moves of the game, and playing them leads
/// to a board identical to the live board.
pub proof fn law_decode_of_encode(s: SessionView, keys: [[[u64; 3]; COLS]; ROWS])
    requires
        s.wf(),
        is_line(s.tree),
        real_colors(s.tree),
        s.tree.curr == s.tree.nodes.len() - 1,
        s.board == s.tree.nodes[s.tree.curr as int].board(),
        played_out(s.tree, keys),
    ensures
        parse(sgf_text(s.tree), s.size()) is Ok,
        SessionView::initial(keys, s.size()).replayed(
            parse(sgf_text(s.tree), s.size())->Ok_0,
            parse(sgf_text(s.tree), s.size())->Ok_0.len() as int,
        ).board == s.board,
{
    law_parse_of_text(s.tree);
    lemma_replay_line(s.tree, keys, s.tree.nodes.len() - 1);
}

/// A new game is well-formed.
pub proof fn lemma_initial_wf(keys: [[[u64; 3]; COLS]; ROWS], n: nat)
    requires
        valid_size(n),
    ensures
        SessionView::initial(keys, n).wf(),
        SessionView::initial(keys, n).size() == n,
{
    let s = SessionView::initial(keys, n);
    crate::game::lemma_empty_sound(n);
    assert(node_ok(s.tree.nodes, 0));
}

/// What comes of playing the first `n` of some moves depends on those
/// moves alone.
pub proof fn lemma_replay_prefix(
    s: SessionView,
    a: Seq<(usize, usize, usize)>,
    b: Seq<(usize, usize, usize)>,
    n: int,
)
    requires
        0 <= n <= a.len(),
        n <= b.len(),
        forall|k: int| 0 <= k < n ==> a[k] == b[k],
    ensures
        s.replayed(a, n) == s.replayed(b, n),
    decreases n,
{
    if n > 0 {
        lemma_replay_prefix(s, a, b, n - 1);
    }
}

/// Whether a game is one line of moves that stands at its end: the tree
/// has no variations and no saved state, the cursor stands on the last
/// move, the live board is that move's board, and every move has a real
/// colour.
pub open spec fn at_end_of_line(s: SessionView) -> bool {
    &&& s.wf()
    &&& is_line(s.tree)
    &&& real_colors(s.tree)
    &&& s.tree.curr == s.tree.nodes.len() - 1
    &&& s.board == s.tree.nodes[s.tree.curr as int].board()
}

/// A move applied at the end of a line makes the line one move longer.
pub proof fn lemma_line_grows(s: SessionView, m: (usize, usize, usize))
    requires
        at_end_of_line(s),
        m.0 < s.size(),
        m.1 < s.size(),
        m.2 == BLACK || m.2 == WHITE,
        s.tree.nodes.len() < usize::MAX,
    ensures
        at_end_of_line(s.applied(m.0, m.1, m.2)),
        s.applied(m.0, m.1, m.2).size() == s.size(),
        line_moves(s.applied(m.0, m.1, m.2).tree) == line_moves(s.tree).push(m),
{
    let u = s.applied(m.0, m.1, m.2);
    let len = s.tree.nodes.len() as int;
    crate::session::lemma_applied_wf(s, m.0, m.1, m.2);
    crate::capture::lemma_moved_sound(s.board, m.0, m.1, m.2);
    assert(s.tree.nodes[len - 1] is Move);
    assert(s.tree.nodes[len - 1].children() =~= Seq::<usize>::empty());
    assert(u.tree.nodes.len() == len + 1);
    assert forall|i: int| 0 <= i < u.tree.nodes.len() implies (#[trigger] u.tree.nodes[i]) is Move
        && u.tree.nodes[i].children() == if i + 1 < u.tree.nodes.len() {
        seq![(i + 1) as usize]
    } else {
        Seq::empty()
    } by {
        if i < len - 1 {
            assert(u.tree.nodes[i] == s.tree.nodes[i]);
            assert(s.tree.nodes[i] is Move);
        } else if i == len - 1 {
            assert(u.tree.nodes[i].children() =~= seq![(i + 1) as usize]);
        }
    }
    assert forall|i: int| 1 <= i < u.tree.nodes.len() implies (#[trigger] u.tree.nodes[i]).color()
        == BLACK || u.tree.nodes[i].color() == WHITE by {
        if i < len {
            assert(u.tree.nodes[i].color() == s.tree.nodes[i].color());
            assert(s.tree.nodes[i].color() == BLACK || s.tree.nodes[i].color() == WHITE);
        }
    }
    assert(line_moves(u.tree) =~= line_moves(s.tree).push(m)) by {
        assert forall|k: int| 0 <= k < len - 1 implies line_moves(u.tree)[k] == line_moves(s.tree)[k] by {
            assert(u.tree.nodes[k + 1].piece() == s.tree.nodes[k + 1].piece());
            assert(u.tree.nodes[k + 1].color() == s.tree.nodes[k + 1].color());
        }
    }
}

/// A game that came from a new game by moves played in turn, each through
/// validation, is one line of moves that stands at its end, and playing the
/// moves of that line into a new game with the same keys leads to the same
/// game.
pub proof fn lemma_played_line(
    keys: [[[u64; 3]; COLS]; ROWS],
    n: nat,
    moves: Seq<(usize, usize, usize)>,
    k: int,
)
    requires
        valid_size(n),
        0 <= k <= moves.len(),
        moves.len() < usize::MAX,
    ensures
        at_end_of_line(SessionView::initial(keys, n).replayed(moves, k)),
        SessionView::initial(keys, n).replayed(moves, k).size() == n,
        SessionView::initial(keys, n).replayed(moves, k).tree.nodes.len() <= k + 1,
        SessionView::initial(keys, n).replayed(
            line_moves(SessionView::initial(keys, n).replayed(moves, k).tree),
            line_moves(SessionView::initial(keys, n).replayed(moves, k).tree).len() as int,
        ) == SessionView::initial(keys, n).replayed(moves, k),
    decreases k,
{
    let start = SessionView::initial(keys, n);
    lemma_initial_wf(keys, n);
    if k == 0 {
        assert(start.tree.nodes[0].children() =~= Seq::<usize>::empty());
        assert(line_moves(start.tree) =~= Seq::<(usize, usize, usize)>::empty());
    } else {
        lemma_played_line(keys, n, moves, k - 1);
        let before = start.replayed(moves, k - 1);
        let m = moves[k - 1];
        let after = start.replayed(moves, k);
        assert(after == before.played(m));
        if legal(before.board, before.hash, m.0, m.1, m.2) {
            lemma_line_grows(before, m);
            let old_line = line_moves(before.tree);
            let new_line = line_moves(after.tree);
            assert(new_line == old_line.push(m));
            lemma_replay_prefix(start, new_line, old_line, old_line.len() as int);
            assert(start.replayed(new_line, new_line.len() as int) == start.replayed(
                new_line,
                new_line.len() - 1,
            ).played(new_line[new_line.len() - 1]));
        }
    }
}

/// A game that came from a new game by moves played in turn at any
/// coordinates, each through validation, reads back from its own record:
/// the record holds the moves of the game, and playing them into a new game
/// with the same keys leads to the same game, with a board identical to the
/// live board at the time of writing.
pub proof fn law_decode_own_record(
    keys: [[[u64; 3]; COLS]; ROWS],
    n: nat,
    moves: Seq<(usize, usize, usize)>,
)
    requires
        valid_size(n),
        moves.len() < usize::MAX,
    ensures
        ({
            let s = SessionView::initial(keys, n).replayed(moves, moves.len() as int);
            let read = parse(sgf_text(s.tree), n);
            &&& read is Ok
            &&& SessionView::initial(keys, n).replayed(read->Ok_0, read->Ok_0.len() as int) == s
        }),
{
    lemma_played_line(keys, n, moves, moves.len() as int);
    let s = SessionView::initial(keys, n).replayed(moves, moves.len() as int);
    law_parse_of_text(s.tree);
}

} // verus!
