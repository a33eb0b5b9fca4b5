//! Board geometry: the sizes of boards, coordinates, adjacency, and the
//! row-major listing of a set of coordinates, which is the canonical form in
//! which stone and liberty lists are stored. Boards of every size are laid
//! out in one frame, that of the largest board, so that a coordinate has the
//! same place in the row-major order whatever the size of the board.

use vstd::prelude::*;

verus! {

/// Number of rows of the full board, and of the frame.
pub const ROWS: usize = 19;

/// Number of columns of the full board, and of the frame.
pub const COLS: usize = 19;

/// Number of rows and of columns of the small board.
pub const SMALL: usize = 9;

/// Number of intersections of the frame.
pub const CELLS: usize = 361;

/// Whether a board may have `n` rows and `n` columns: boards are small or full.
pub open spec fn valid_size(n: nat) -> bool {
    n == SMALL || n == ROWS
}

/// Whether a coordinate lies in the frame.
pub open spec fn in_frame(c: (usize, usize)) -> bool {
    c.0 < ROWS && c.1 < COLS
}

/// Whether a coordinate lies on a board of `n` rows and `n` columns.
pub open spec fn within(n: nat, c: (usize, usize)) -> bool {
    c.0 < n && c.1 < n
}

/// Whether a number is the size of a board.
pub fn is_valid_size(n: usize) -> (ok: bool)
    ensures
        ok == valid_size(n as nat),
{
    n == SMALL || n == ROWS
}

/// Whether two coordinates are orthogonal neighbours.
pub open spec fn adjacent(a: (usize, usize), b: (usize, usize)) -> bool {
    ||| (a.0 == b.0 && a.1 + 1 == b.1)
    ||| (a.0 == b.0 && b.1 + 1 == a.1)
    ||| (a.1 == b.1 && a.0 + 1 == b.0)
    ||| (a.1 == b.1 && b.0 + 1 == a.0)
}

/// The coordinate with row-major index `k`.
pub open spec fn cell_at(k: int) -> (usize, usize) {
    ((k / 19) as usize, (k % 19) as usize)
}

/// The row-major index of a coordinate.
pub open spec fn index_of(c: (usize, usize)) -> int {
    c.0 * 19 + c.1
}

/// The members of `s` among the first `n` coordinates of the frame, in
/// row-major order.
pub open spec fn listed(s: Set<(usize, usize)>, n: nat) -> Seq<(usize, usize)>
    decreases n,
{
    if n == 0 {
        Seq::empty()
    } else {
        let rest = listed(s, (n - 1) as nat);
        if s.contains(cell_at(n - 1)) {
            rest.push(cell_at(n - 1))
        } else {
            rest
        }
    }
}

/// The members of `s` that lie in the frame, in row-major order.
pub open spec fn ordered(s: Set<(usize, usize)>) -> Seq<(usize, usize)> {
    listed(s, CELLS as nat)
}

/// The coordinates that a grid of marks has set.
pub open spec fn marked(m: [[bool; COLS]; ROWS]) -> Set<(usize, usize)> {
    Set::new(|c: (usize, usize)| in_frame(c) && m[c.0 as int][c.1 as int])
}

/// `cell_at` and `index_of` are inverse to each other in the frame.
pub proof fn lemma_cell_index(c: (usize, usize))
    requires
        in_frame(c),
    ensures
        0 <= index_of(c) < CELLS,
        cell_at(index_of(c)) == c,
{
}

/// Every index below the number of intersections names a coordinate of the frame.
pub proof fn lemma_index_cell(k: int)
    requires
        0 <= k < CELLS,
    ensures
        in_frame(cell_at(k)),
        index_of(cell_at(k)) == k,
{
}

/// A listing holds exactly the members of the set whose index it has passed.
pub proof fn lemma_listed_members(s: Set<(usize, usize)>, n: nat, c: (usize, usize))
    requires
        n <= CELLS,
    ensures
        listed(s, n).contains(c) <==> (s.contains(c) && in_frame(c) && index_of(c) < n),
    decreases n,
{
    if n > 0 {
        let rest = listed(s, (n - 1) as nat);
        let last = cell_at(n - 1);
        lemma_listed_members(s, (n - 1) as nat, c);
        lemma_index_cell(n - 1);
        if s.contains(last) {
            assert(listed(s, n) == rest.push(last));
            if c == last {
                assert(rest.push(last)[rest.len() as int] == last);
            }
            if rest.push(last).contains(c) && c != last {
                let i = choose|i: int| 0 <= i < rest.push(last).len() && rest.push(last)[i] == c;
                assert(rest[i] == c);
            }
            if rest.contains(c) {
                let i = choose|i: int| 0 <= i < rest.len() && rest[i] == c;
                assert(rest.push(last)[i] == c);
            }
        }
        if in_frame(c) && index_of(c) == n - 1 {
            lemma_cell_index(c);
        }
    }
}

/// A listing names no coordinate twice.
pub proof fn lemma_listed_distinct(s: Set<(usize, usize)>, n: nat)
    requires
        n <= CELLS,
    ensures
        listed(s, n).no_duplicates(),
        listed(s, n).len() <= n,
    decreases n,
{
    if n > 0 {
        let rest = listed(s, (n - 1) as nat);
        let last = cell_at(n - 1);
        lemma_listed_distinct(s, (n - 1) as nat);
        lemma_listed_members(s, (n - 1) as nat, last);
        lemma_index_cell(n - 1);
    }
}

/// Two sets with the same members in the frame have the same listing.
pub proof fn lemma_listed_agree(a: Set<(usize, usize)>, b: Set<(usize, usize)>, n: nat)
    requires
        n <= CELLS,
        forall|c: (usize, usize)| in_frame(c) ==> (a.contains(c) <==> b.contains(c)),
    ensures
        listed(a, n) == listed(b, n),
    decreases n,
{
    if n > 0 {
        lemma_listed_agree(a, b, (n - 1) as nat);
        lemma_index_cell(n - 1);
    }
}

/// The row-major listing of a set holds exactly its members in the frame, each once.
pub proof fn lemma_ordered(s: Set<(usize, usize)>)
    ensures
        ordered(s).no_duplicates(),
        ordered(s).len() <= CELLS,
        forall|c: (usize, usize)| #[trigger] ordered(s).contains(c) <==> (s.contains(c) && in_frame(c)),
{
    lemma_listed_distinct(s, CELLS as nat);
    assert forall|c: (usize, usize)| #[trigger] ordered(s).contains(c) <==> (s.contains(c) && in_frame(c)) by {
        lemma_listed_members(s, CELLS as nat, c);
        if in_frame(c) {
            lemma_cell_index(c);
        }
    }
}

/// A grid of marks with nothing set.
pub fn no_marks() -> (m: [[bool; COLS]; ROWS])
    ensures
        marked(m) == Set::<(usize, usize)>::empty(),
{
    let m = [[false; COLS]; ROWS];
    assert(marked(m) =~= Set::<(usize, usize)>::empty());
    m
}

/// Sets the mark of one coordinate.
pub fn set_mark(m: &mut [[bool; COLS]; ROWS], x: usize, y: usize)
    requires
        x < ROWS,
        y < COLS,
    ensures
        marked(*final(m)) == marked(*old(m)).insert((x, y)),
{
    m[x][y] = true;
    assert(marked(*m) =~= marked(*old(m)).insert((x, y)));
}

/// The marked coordinates in row-major order.
pub fn collect_marks(m: &[[bool; COLS]; ROWS]) -> (out: Vec<(usize, usize)>)
    ensures
        out@ == ordered(marked(*m)),
{
    let mut out: Vec<(usize, usize)> = Vec::new();
    let mut i: usize = 0;
    while i < ROWS
        invariant
            i <= ROWS,
            out@ == listed(marked(*m), (i * 19) as nat),
        decreases ROWS - i,
    {
        let mut j: usize = 0;
        while j < COLS
            invariant
                i < ROWS,
                j <= COLS,
                out@ == listed(marked(*m), (i * 19 + j) as nat),
            decreases COLS - j,
        {
            assert(cell_at(i * 19 + j) == (i, j));
            if m[i][j] {
                out.push((i, j));
            }
            j += 1;
        }
        i += 1;
    }
    out
}

} // verus!
