//! The game record as text: how a tree of moves is written down.

use vstd::prelude::*;
use crate::game::{GameView, NodeView};
use crate::cells::{valid_size, SMALL};
use crate::go::{GoError, BLACK, WHITE};

verus! {

/// The letter that stands for a row or a column: `a` for 0, `b` for 1, and so on.
pub open spec fn letter(k: usize) -> char {
    ((k + 97) as u8) as char
}

/// The letter that stands for a colour: `B` for black, `W` for any other.
pub open spec fn tag(color: usize) -> char {
    if color == BLACK {
        'B'
    } else {
        'W'
    }
}

/// A move as text: a semicolon, the colour's letter, and the letters of
/// row and column in square brackets.
pub open spec fn move_text(color: usize, piece: (usize, usize)) -> Seq<char> {
    seq![';', tag(color), '[', letter(piece.0), letter(piece.1), ']']
}

/// The size of a board as the header of a record gives it.
pub open spec fn size_text(n: nat) -> Seq<char> {
    if n == SMALL {
        seq!['9']
    } else {
        seq!['1', '9']
    }
}

/// The properties of a game on a board of `n` rows and `n` columns, as
/// every record gives them straight after its opening.
pub open spec fn properties(n: nat) -> Seq<char> {
    seq!['F', 'F', '[', '4', ']', 'G', 'M', '[', '1', ']', 'S', 'Z', '['] + size_text(n) + seq![']']
}

/// What every record of a game on a board of `n` rows and `n` columns
/// starts with: the opening parenthesis, a semicolon and the properties of
/// the game.
pub open spec fn header(n: nat) -> Seq<char> {
    seq!['(', ';'] + properties(n)
}

/// The text of the node with index `i` and of all that was played from it.
/// The root, which stands for no move, writes only what was played from it.
/// A node with several children writes each in parentheses; a node with one
/// child goes on with that child; a move with none ends its line with a
/// semicolon.
pub open spec fn node_text(nodes: Seq<NodeView>, i: int, first: bool) -> Seq<char>
    decreases nodes.len() - i, 1int, 0int,
{
    if 0 <= i < nodes.len() {
        match nodes[i] {
            NodeView::Move { piece, color, children, .. } => {
                let head = if first {
                    Seq::empty()
                } else {
                    move_text(color, piece)
                };
                let tail = if children.len() > 1 {
                    branches_text(nodes, i, children.len() as int)
                } else if children.len() == 1 {
                    child_text(nodes, i, 0)
                } else if first {
                    Seq::empty()
                } else {
                    seq![';']
                };
                head + tail
            },
            NodeView::End { piece, color, .. } => move_text(color, piece),
        }
    } else {
        Seq::empty()
    }
}

/// The text of the child with number `k` of the node with index `i`.
pub open spec fn child_text(nodes: Seq<NodeView>, i: int, k: int) -> Seq<char>
    decreases nodes.len() - i, 0int, 0int,
{
    if 0 <= i < nodes.len() && 0 <= k < nodes[i].children().len() && i < nodes[i].children()[k]
        < nodes.len() {
        node_text(nodes, nodes[i].children()[k] as int, false)
    } else {
        Seq::empty()
    }
}

/// The text of the first `n` children of the node with index `i`, each in
/// parentheses.
pub open spec fn branches_text(nodes: Seq<NodeView>, i: int, n: int) -> Seq<char>
    decreases nodes.len() - i, 0int, n,
{
    if 0 <= i < nodes.len() && 0 < n <= nodes[i].children().len() {
        branches_text(nodes, i, n - 1) + seq!['('] + child_text(nodes, i, n - 1) + seq![')']
    } else {
        Seq::empty()
    }
}

/// What follows a move in the text of its node: its children, each in
/// parentheses where there are several, or the semicolon that ends the
/// line. The root ends no line.
pub open spec fn tail_text(nodes: Seq<NodeView>, i: int, first: bool) -> Seq<char> {
    let children = nodes[i].children();
    if children.len() > 1 {
        branches_text(nodes, i, children.len() as int)
    } else if children.len() == 1 {
        child_text(nodes, i, 0)
    } else if first {
        Seq::empty()
    } else {
        seq![';']
    }
}

/// The text of the children of the node with index `i` from the child with
/// number `k` on, each in parentheses.
pub open spec fn branches_from(nodes: Seq<NodeView>, i: int, k: int) -> Seq<char>
    decreases nodes[i].children().len() - k,
{
    if 0 <= k < nodes[i].children().len() {
        seq!['('] + child_text(nodes, i, k) + seq![')'] + branches_from(nodes, i, k + 1)
    } else {
        Seq::empty()
    }
}

/// The text of the first children followed by the text of the others is
/// the text of all children.
pub proof fn lemma_branches_split(nodes: Seq<NodeView>, i: int, k: int)
    requires
        0 <= i < nodes.len(),
        0 <= k <= nodes[i].children().len(),
    ensures
        branches_text(nodes, i, k) + branches_from(nodes, i, k) == branches_text(
            nodes,
            i,
            nodes[i].children().len() as int,
        ),
    decreases nodes[i].children().len() - k,
{
    let n = nodes[i].children().len() as int;
    if k < n {
        lemma_branches_split(nodes, i, k + 1);
        assert(branches_text(nodes, i, k + 1) == branches_text(nodes, i, k) + seq!['('] + child_text(
            nodes,
            i,
            k,
        ) + seq![')']);
        assert(branches_text(nodes, i, k) + branches_from(nodes, i, k) =~= branches_text(
            nodes,
            i,
            k + 1,
        ) + branches_from(nodes, i, k + 1));
    } else {
        assert(branches_text(nodes, i, k) + branches_from(nodes, i, k) =~= branches_text(nodes, i, n));
    }
}

/// What is still to be written: the text of a node and of all that was
/// played from it, or a parenthesis.
#[derive(Debug, Clone, Copy)]
pub enum Task {
    Node(usize),
    Open,
    Close,
}

/// The text that a task stands for.
pub open spec fn task_text(nodes: Seq<NodeView>, t: Task) -> Seq<char> {
    match t {
        Task::Node(i) => node_text(nodes, i as int, false),
        Task::Open => seq!['('],
        Task::Close => seq![')'],
    }
}

/// The text that a stack of tasks stands for, the top of the stack first.
pub open spec fn stack_text(nodes: Seq<NodeView>, stack: Seq<Task>) -> Seq<char>
    decreases stack.len(),
{
    if stack.len() == 0 {
        Seq::empty()
    } else {
        task_text(nodes, stack.last()) + stack_text(nodes, stack.drop_last())
    }
}

/// A task pushed on a stack comes first in its text.
pub proof fn lemma_stack_push(nodes: Seq<NodeView>, stack: Seq<Task>, t: Task)
    ensures
        stack_text(nodes, stack.push(t)) == task_text(nodes, t) + stack_text(nodes, stack),
{
    assert(stack.push(t).drop_last() =~= stack);
}

/// The record of a game: the header, the text of the tree, and the closing
/// parenthesis.
pub open spec fn sgf_text(t: GameView) -> Seq<char> {
    header(t.nodes[0].board().len()) + node_text(t.nodes, t.root as int, true) + seq![')']
}

/// The first index from `from` on at which `s` holds `stop`; the length of
/// `s` where there is none.
pub open spec fn find(s: Seq<char>, from: int, stop: char) -> int
    decreases s.len() - from,
{
    if from >= s.len() {
        s.len() as int
    } else if s[from] == stop {
        from
    } else {
        find(s, from + 1, stop)
    }
}

/// How many more opening than closing parentheses the first `n` characters hold.
pub open spec fn depth(s: Seq<char>, n: int) -> int
    decreases n,
{
    if n <= 0 {
        0
    } else {
        depth(s, n - 1) + if s[n - 1] == '(' {
            1int
        } else if s[n - 1] == ')' {
            -1int
        } else {
            0int
        }
    }
}

/// Whether every closing parenthesis closes one that was opened, and none
/// stays open.
pub open spec fn balanced(s: Seq<char>) -> bool {
    &&& depth(s, s.len() as int) == 0
    &&& forall|n: int| 0 <= n <= s.len() ==> depth(s, n) >= 0
}

/// Whether a character is the letter of a row or a column of a board of
/// `n` rows and `n` columns.
pub open spec fn is_letter(c: char, n: nat) -> bool {
    97 <= c as int && (c as int) < 97 + n
}

/// Whether a character is a parenthesis.
pub open spec fn is_paren(c: char) -> bool {
    c == '(' || c == ')'
}

/// Whether a text holds nothing but parentheses from index `from` on.
pub open spec fn all_parens(s: Seq<char>, from: int) -> bool {
    forall|k: int| from <= k < s.len() ==> is_paren(#[trigger] s[k])
}

/// Whether a token is the properties of a game on a board of `n` rows and
/// `n` columns, followed by parentheses or by nothing.
pub open spec fn is_header(tok: Seq<char>, n: nat) -> bool {
    &&& tok.len() >= properties(n).len()
    &&& tok.subrange(0, properties(n).len() as int) == properties(n)
    &&& all_parens(tok, properties(n).len() as int)
}

/// Whether a token carries the tag of a move: it starts with `B` or `W`,
/// and what follows that letter, if anything, is an opening square bracket.
pub open spec fn is_move_token(tok: Seq<char>) -> bool {
    &&& tok.len() >= 1
    &&& (tok[0] == 'B' || tok[0] == 'W')
    &&& (tok.len() == 1 || tok[1] == '[')
}

/// What a token stands for; `opening` says that the token is the one
/// straight after the opening of the record. Three kinds of token stand for
/// nothing: the empty token, a run of parentheses, and, straight after the
/// opening, the properties of the game. A move is the tag `B` or `W`, two
/// characters in square brackets, and then parentheses or nothing; where
/// the two characters are no letters of the board, the move lies out of
/// bounds. Every other token makes the record malformed: one with another
/// tag, one with more or fewer than two characters in its brackets, one
/// with anything but parentheses behind its brackets.
pub open spec fn token_move(tok: Seq<char>, n: nat, opening: bool) -> Result<
    Option<(usize, usize, usize)>,
    GoError,
> {
    if all_parens(tok, 0) {
        Ok(None)
    } else if opening && is_header(tok, n) {
        Ok(None)
    } else if !is_move_token(tok) {
        Err(GoError::MalformedRecord)
    } else if find(tok, 2, ']') != 4 || tok.len() < 5 || !all_parens(tok, 5) {
        Err(GoError::MalformedRecord)
    } else if !is_letter(tok[2], n) || !is_letter(tok[3], n) {
        Err(GoError::OutOfBounds)
    } else {
        Ok(
            Some(
                (
                    (tok[2] as int - 97) as usize,
                    (tok[3] as int - 97) as usize,
                    if tok[0] == 'B' {
                        BLACK
                    } else {
                        WHITE
                    },
                ),
            ),
        )
    }
}

/// Nothing or one move as a list.
pub open spec fn as_list(m: Option<(usize, usize, usize)>) -> Seq<(usize, usize, usize)> {
    match m {
        Some(v) => seq![v],
        None => Seq::empty(),
    }
}

/// The moves of the tokens of `body` from index `from` on, the tokens being
/// what stands between semicolons; the error of the first token that has
/// one. The token straight after the opening is the one that starts behind
/// the first character of the body.
pub open spec fn moves_from(body: Seq<char>, from: int, n: nat) -> Result<
    Seq<(usize, usize, usize)>,
    GoError,
>
    decreases body.len() - from,
{
    if from < 0 || from > body.len() {
        Ok(Seq::empty())
    } else {
        let end = find(body, from, ';');
        match token_move(body.subrange(from, end), n, from == 1) {
            Err(e) => Err(e),
            Ok(m) => if end >= body.len() || end < from {
                Ok(as_list(m))
            } else {
                match moves_from(body, end + 1, n) {
                    Err(e) => Err(e),
                    Ok(rest) => Ok(as_list(m) + rest),
                }
            },
        }
    }
}

/// The moves that a record holds for a board of `n` rows and `n` columns,
/// in the order in which it holds them, branches flattened. The record
/// must stand in one pair of parentheses and its parentheses must match,
/// else it is malformed.
pub open spec fn parse(text: Seq<char>, n: nat) -> Result<Seq<(usize, usize, usize)>, GoError> {
    if text.len() < 2 || text[0] != '(' || text.last() != ')' {
        Err(GoError::MalformedRecord)
    } else if !balanced(text.subrange(1, text.len() - 1)) {
        Err(GoError::MalformedRecord)
    } else {
        moves_from(text.subrange(1, text.len() - 1), 0, n)
    }
}

/// `find` stops inside the text or at its end, at the first stop.
pub proof fn lemma_find(s: Seq<char>, from: int, stop: char)
    requires
        0 <= from <= s.len(),
    ensures
        from <= find(s, from, stop) <= s.len(),
        find(s, from, stop) < s.len() ==> s[find(s, from, stop)] == stop,
        forall|k: int| from <= k < find(s, from, stop) ==> s[k] != stop,
    decreases s.len() - from,
{
    if from < s.len() && s[from] != stop {
        lemma_find(s, from + 1, stop);
    }
}

/// The characters of a string.
pub fn chars_of(s: &str) -> (out: Vec<char>)
    ensures
        out@ == s@,
{
    let mut out: Vec<char> = Vec::new();
    for c in it: s.chars()
        invariant
            out@ == it.seq().take(it.index() as int),
    {
        out.push(c);
    }
    out
}

/// The first index from `from` on at which the text holds `stop`, below `to`.
fn scan(text: &Vec<char>, from: usize, to: usize, stop: char) -> (end: usize)
    requires
        from <= to <= text.len(),
    ensures
        end == from + find(text@.subrange(from as int, to as int), 0, stop),
        from <= end <= to,
{
    let ghost part = text@.subrange(from as int, to as int);
    let mut k: usize = from;
    while k < to && text[k] != stop
        invariant
            from <= k <= to,
            to <= text.len(),
            part == text@.subrange(from as int, to as int),
            find(part, 0, stop) == find(part, k - from, stop),
        decreases to - k,
    {
        assert(part[k - from] == text@[k as int]);
        k += 1;
    }
    proof {
        if k < to {
            assert(part[k - from] == text@[k as int]);
        }
    }
    k
}

/// Whether the text holds nothing but parentheses from `from` up to `to`.
fn only_parens(text: &Vec<char>, from: usize, to: usize) -> (ok: bool)
    requires
        from <= to <= text.len(),
    ensures
        ok == forall|k: int| from <= k < to ==> is_paren(#[trigger] text@[k]),
{
    let mut k: usize = from;
    while k < to
        invariant
            from <= k <= to,
            to <= text.len(),
            forall|w: int| from <= w < k ==> is_paren(#[trigger] text@[w]),
        decreases to - k,
    {
        if text[k] != '(' && text[k] != ')' {
            assert(!is_paren(text@[k as int]));
            return false;
        }
        k += 1;
    }
    true
}

/// The properties of a game on a board of `size` rows and `size` columns.
fn properties_of(size: usize) -> (out: Vec<char>)
    requires
        valid_size(size as nat),
    ensures
        out@ == properties(size as nat),
{
    if size == SMALL {
        let out = chars_of("FF[4]GM[1]SZ[9]");
        proof {
            reveal_strlit("FF[4]GM[1]SZ[9]");
            assert(out@ =~= properties(size as nat));
        }
        out
    } else {
        let out = chars_of("FF[4]GM[1]SZ[19]");
        proof {
            reveal_strlit("FF[4]GM[1]SZ[19]");
            assert(out@ =~= properties(size as nat));
        }
        out
    }
}

/// Whether the text from `from` up to `to` is the properties of a game on a
/// board of `size` rows and `size` columns, followed by parentheses or by
/// nothing.
fn reads_header(text: &Vec<char>, from: usize, to: usize, size: usize) -> (ok: bool)
    requires
        from <= to <= text.len(),
        valid_size(size as nat),
    ensures
        ok == is_header(text@.subrange(from as int, to as int), size as nat),
{
    let ghost tok = text@.subrange(from as int, to as int);
    let props = properties_of(size);
    if to - from < props.len() {
        return false;
    }
    let mut k: usize = 0;
    while k < props.len()
        invariant
            k <= props.len(),
            from + props.len() <= to <= text.len(),
            props@ == properties(size as nat),
            tok == text@.subrange(from as int, to as int),
            forall|w: int| 0 <= w < k ==> tok[w] == props@[w],
        decreases props.len() - k,
    {
        assert(tok[k as int] == text@[from + k]);
        if text[from + k] != props[k] {
            assert(tok.subrange(0, props.len() as int)[k as int] == tok[k as int]);
            assert(tok.subrange(0, props.len() as int) != props@);
            return false;
        }
        k += 1;
    }
    assert(tok.subrange(0, props.len() as int) =~= props@);
    let rest = only_parens(text, from + props.len(), to);
    proof {
        if rest {
            assert forall|w: int| props.len() <= w < tok.len() implies is_paren(#[trigger] tok[w]) by {
                assert(tok[w] == text@[from + w]);
            }
        } else {
            let w = choose|w: int| from + props.len() <= w < to && !is_paren(#[trigger] text@[w]);
            assert(tok[w - from] == text@[w]);
        }
    }
    rest
}

/// Reads the token that stands in the text from `from` up to `to`, for a
/// board of `size` rows and `size` columns; `opening` says that the token
/// is the one straight after the opening of the record. Returns nothing for
/// a token that stands for nothing, the move for one that is a move, and
/// the error for any other.
pub fn eval_token(text: &Vec<char>, from: usize, to: usize, size: usize, opening: bool) -> (r: Result<
    Option<(usize, usize, usize)>,
    GoError,
>)
    requires
        from <= to <= text.len(),
        valid_size(size as nat),
    ensures
        r == token_move(text@.subrange(from as int, to as int), size as nat, opening),
{
    let ghost tok = text@.subrange(from as int, to as int);
    let n = to - from;
    let blank = only_parens(text, from, to);
    proof {
        if blank {
            assert forall|w: int| 0 <= w < tok.len() implies is_paren(#[trigger] tok[w]) by {
                assert(tok[w] == text@[from + w]);
            }
        } else {
            let w = choose|w: int| from <= w < to && !is_paren(#[trigger] text@[w]);
            assert(tok[w - from] == text@[w]);
        }
    }
    if blank {
        return Ok(None);
    }
    if opening && reads_header(text, from, to, size) {
        return Ok(None);
    }
    assert(tok[0] == text@[from as int]);
    let head = text[from];
    if head != 'B' && head != 'W' {
        return Err(GoError::MalformedRecord);
    }
    if n > 1 {
        assert(tok[1] == text@[from + 1]);
        if text[from + 1] != '[' {
            return Err(GoError::MalformedRecord);
        }
    }
    assert(is_move_token(tok));
    if n < 5 {
        return Err(GoError::MalformedRecord);
    }
    let close = scan(text, from + 2, to, ']');
    proof {
        let inner = text@.subrange(from + 2, to as int);
        assert(inner =~= tok.subrange(2, tok.len() as int));
        lemma_find_shift(tok, inner, 2, 0, ']');
    }
    if close - from != 4 {
        return Err(GoError::MalformedRecord);
    }
    let tail = only_parens(text, from + 5, to);
    proof {
        if tail {
            assert forall|w: int| 5 <= w < tok.len() implies is_paren(#[trigger] tok[w]) by {
                assert(tok[w] == text@[from + w]);
            }
        } else {
            let w = choose|w: int| from + 5 <= w < to && !is_paren(#[trigger] text@[w]);
            assert(tok[w - from] == text@[w]);
        }
    }
    if !tail {
        return Err(GoError::MalformedRecord);
    }
    proof {
        lemma_find(tok, 2, ']');
    }
    assert(tok[2] == text@[from + 2]);
    assert(tok[3] == text@[from + 3]);
    let a = text[from + 2];
    let b = text[from + 3];
    if a < 'a' || a > 's' || b < 'a' || b > 's' {
        return Err(GoError::OutOfBounds);
    }
    let x = (a as u8 - 97u8) as usize;
    let y = (b as u8 - 97u8) as usize;
    if x >= size || y >= size {
        return Err(GoError::OutOfBounds);
    }
    let color = if head == 'B' {
        BLACK
    } else {
        WHITE
    };
    Ok(Some((x, y, color)))
}

/// A search in the tail of a text finds what the search in the text finds.
pub proof fn lemma_find_shift(s: Seq<char>, tail: Seq<char>, cut: int, from: int, stop: char)
    requires
        0 <= cut <= s.len(),
        tail == s.subrange(cut, s.len() as int),
        0 <= from <= tail.len(),
    ensures
        find(s, cut + from, stop) == cut + find(tail, from, stop),
    decreases tail.len() - from,
{
    if from < tail.len() {
        assert(tail[from] == s[cut + from]);
        if tail[from] != stop {
            lemma_find_shift(s, tail, cut, from + 1, stop);
        }
    }
}

/// Whether the parentheses of the text match.
fn check_balance(text: &Vec<char>) -> (ok: bool)
    ensures
        ok == balanced(text@),
{
    let mut d: usize = 0;
    let mut k: usize = 0;
    while k < text.len()
        invariant
            k <= text.len(),
            d == depth(text@, k as int),
            d <= k,
            forall|n: int| 0 <= n <= k ==> depth(text@, n) >= 0,
        decreases text.len() - k,
    {
        let c = text[k];
        if c == '(' {
            d += 1;
        } else if c == ')' {
            if d == 0 {
                assert(depth(text@, k + 1) < 0);
                return false;
            }
            d -= 1;
        }
        k += 1;
    }
    d == 0
}

/// A copy of the text from `from` up to `to`.
fn copy_range(text: &Vec<char>, from: usize, to: usize) -> (out: Vec<char>)
    requires
        from <= to <= text.len(),
    ensures
        out@ == text@.subrange(from as int, to as int),
{
    let mut out: Vec<char> = Vec::new();
    let mut k: usize = from;
    while k < to
        invariant
            from <= k <= to,
            to <= text.len(),
            out@ == text@.subrange(from as int, k as int),
        decreases to - k,
    {
        out.push(text[k]);
        assert(out@ =~= text@.subrange(from as int, k + 1));
        k += 1;
    }
    out
}

/// Reads the moves of a record for a board of `size` rows and `size`
/// columns, in the order in which it holds them, branches flattened; the
/// error where the record is malformed or one of its moves cannot be read.
pub fn parse_sgf(text: &Vec<char>, size: usize) -> (r: Result<Vec<(usize, usize, usize)>, GoError>)
    requires
        valid_size(size as nat),
    ensures
        match r {
            Ok(v) => parse(text@, size as nat) == Ok::<Seq<(usize, usize, usize)>, GoError>(v@),
            Err(e) => parse(text@, size as nat) == Err::<Seq<(usize, usize, usize)>, GoError>(e),
        },
{
    let n = text.len();
    if n < 2 || text[0] != '(' || text[n - 1] != ')' {
        return Err(GoError::MalformedRecord);
    }
    let body = copy_range(text, 1, n - 1);
    if !check_balance(&body) {
        return Err(GoError::MalformedRecord);
    }
    let mut moves: Vec<(usize, usize, usize)> = Vec::new();
    let mut pos: usize = 0;
    let mut done = false;
    proof {
        match moves_from(body@, 0, size as nat) {
            Ok(rest) => {
                assert(moves@ + rest =~= rest);
            },
            Err(e) => {},
        }
    }
    while !done
        invariant
            pos <= body.len(),
            valid_size(size as nat),
            parse(text@, size as nat) == moves_from(body@, 0, size as nat),
            !done ==> match moves_from(body@, pos as int, size as nat) {
                Ok(rest) => moves_from(body@, 0, size as nat) == Ok::<Seq<(usize, usize, usize)>, GoError>(
                    moves@ + rest,
                ),
                Err(e) => moves_from(body@, 0, size as nat) == Err::<Seq<(usize, usize, usize)>, GoError>(e),
            },
            done ==> moves_from(body@, 0, size as nat) == Ok::<Seq<(usize, usize, usize)>, GoError>(moves@),
        decreases body.len() - pos + (if done { 0int } else { 1int }),
    {
        let end = scan(&body, pos, body.len(), ';');
        proof {
            lemma_find_shift(body@, body@.subrange(pos as int, body.len() as int), pos as int, 0, ';');
        }
        let ghost so_far = moves@;
        match eval_token(&body, pos, end, size, pos == 1) {
            Err(e) => {
                return Err(e);
            },
            Ok(m) => {
                match m {
                    Some(v) => {
                        moves.push(v);
                    },
                    None => {},
                }
                assert(moves@ =~= so_far + as_list(m));
                if end >= body.len() {
                    done = true;
                    assert(so_far + as_list(m) + Seq::<(usize, usize, usize)>::empty() =~= so_far
                        + as_list(m));
                } else {
                    proof {
                        match moves_from(body@, end + 1, size as nat) {
                            Ok(rest) => {
                                assert(so_far + (as_list(m) + rest) =~= (so_far + as_list(m)) + rest);
                            },
                            Err(e) => {},
                        }
                    }
                    pos = end + 1;
                }
            },
        }
    }
    Ok(moves)
}

} // verus!
